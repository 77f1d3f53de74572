use vstd::prelude::*;
use vstd::slice::slice_to_vec;

use crate::dataset::MISSING_BIN;
use crate::number::{at_most, eq, halfway, le, less, lt, midpoint, same, Wide};
use crate::order::{ascending_key, lemma_order_of, order_by_key, order_of, rank_ascending, by_key};

verus! {

/// Per-feature mapping from raw values to bin codes.
///
/// Bin 0 is reserved for missing values. Bins `1..=N` are real bins. For a
/// numeric feature `upper_bounds[i]` is the inclusive upper boundary of bin
/// `i + 1`; for a categorical feature `categories` pairs the bits of a value
/// with its bin code, sorted by bits.
#[derive(Debug, Clone)]
pub struct BinMapper<W> {
    pub(crate) upper_bounds: Vec<W>,
    pub(crate) categories: Vec<(u64, u16)>,
    /// Number of real categorical bins; 0 for a numeric feature.
    pub(crate) n_categorical_bins: u16,
}

/// What a [`BinMapper`] holds.
#[verifier::ext_equal]
pub struct Binning<W> {
    pub upper_bounds: Seq<W>,
    pub categories: Seq<(u64, u16)>,
    pub n_categorical_bins: u16,
}

/// Every number is at most the numbers after it.
pub open spec fn ascend<W: Wide>(values: Seq<W>) -> bool {
    forall|i: int, j: int|
        #![trigger values[i], values[j]]
        0 <= i <= j < values.len() ==> le(values[i], values[j])
}

/// How many bounds lie below `v`.
pub open spec fn bounds_below<W: Wide>(bounds: Seq<W>, v: W) -> nat {
    bounds.filter(|b: W| lt(b, v)).len()
}

/// Some position of `bits` among the categories, if there is one.
pub open spec fn category_at(categories: Seq<(u64, u16)>, bits: u64) -> int {
    choose|i: int| 0 <= i < categories.len() && (#[trigger] categories[i]).0 == bits
}

/// The code that `categories` pairs with `bits`, or missing.
pub open spec fn category_code(categories: Seq<(u64, u16)>, bits: u64) -> u16 {
    if exists|i: int| 0 <= i < categories.len() && (#[trigger] categories[i]).0 == bits {
        categories[category_at(categories, bits)].1
    } else {
        MISSING_BIN
    }
}

impl<W: Wide> Binning<W> {
    pub open spec fn categorical(self) -> bool {
        self.n_categorical_bins > 0
    }

    /// Number of real (non-missing) bins.
    pub open spec fn real_bins(self) -> nat {
        if self.n_categorical_bins > 0 {
            self.n_categorical_bins as nat
        } else {
            self.upper_bounds.len() + 1
        }
    }

    /// Total bin codes including missing.
    pub open spec fn bins(self) -> nat {
        self.real_bins() + 1
    }

    /// Bin codes fit their type, the bounds ascend, and every category has its
    /// own entry with a real code. Without any category there is one bin.
    pub open spec fn valid(self) -> bool {
        &&& self.bins() <= 0x10000
        &&& ascend(self.upper_bounds)
        &&& self.categories.len() == self.n_categorical_bins || (self.categories.len() == 0
            && self.n_categorical_bins == 1)
        &&& forall|i: int, j: int|
            #![trigger self.categories[i], self.categories[j]]
            0 <= i < j < self.categories.len() ==> self.categories[i].0 < self.categories[j].0
        &&& forall|i: int|
            0 <= i < self.categories.len() ==> 1 <= (#[trigger] self.categories[i]).1
                <= self.n_categorical_bins
    }

    /// The bin code of a raw value: missing for a value that is not finite, the
    /// code of its category (missing when it has none), or one more than the
    /// number of bounds below it.
    pub open spec fn code_of(self, v: W) -> u16 {
        if !v.finite() {
            MISSING_BIN
        } else if self.categorical() {
            category_code(self.categories, v.bits_of())
        } else {
            (bounds_below(self.upper_bounds, v) + 1) as u16
        }
    }
}

impl<W: Wide> View for BinMapper<W> {
    type V = Binning<W>;

    closed spec fn view(&self) -> Binning<W> {
        Binning {
            upper_bounds: self.upper_bounds@,
            categories: self.categories@,
            n_categorical_bins: self.n_categorical_bins,
        }
    }
}

impl<W: Wide> BinMapper<W> {
    /// Whether this mapper bins a categorical feature (subset splits) rather
    /// than a numeric one (threshold splits).
    pub fn is_categorical(&self) -> (r: bool)
        ensures
            r == self@.categorical(),
    {
        self.n_categorical_bins > 0
    }

    /// Number of real (non-missing) bins.
    pub fn num_real_bins(&self) -> (r: usize)
        requires
            self@.real_bins() <= usize::MAX,
        ensures
            r == self@.real_bins(),
    {
        if self.n_categorical_bins > 0 {
            self.n_categorical_bins as usize
        } else {
            self.upper_bounds.len() + 1
        }
    }

    /// Total bin codes including missing.
    pub fn num_bins(&self) -> (r: usize)
        requires
            self@.bins() <= usize::MAX,
        ensures
            r == self@.bins(),
    {
        self.num_real_bins() + 1
    }

    pub fn upper_bounds(&self) -> (r: &[W])
        ensures
            r@ == self@.upper_bounds,
    {
        self.upper_bounds.as_slice()
    }
}

// Numeric features: bounds between neighbouring values.

/// The finite values, in order.
pub open spec fn finite_of<W: Wide>(values: Seq<W>) -> Seq<W> {
    values.filter(|v: W| v.finite())
}

/// `values` in ascending order, equal numbers in the order in which they stand.
pub open spec fn ascending<W: Wide>(values: Seq<W>) -> Seq<W> {
    let order = order_of(rank_keys(values));
    Seq::new(values.len(), |i: int| values[order[i] as int])
}

pub open spec fn rank_keys<W: Wide>(values: Seq<W>) -> Seq<u64> {
    Seq::new(values.len(), |i: int| ascending_key(values[i].rank_of()))
}

/// The runs of equal numbers in `sorted`: the first number of each run, and how
/// many numbers it holds.
pub open spec fn runs<W: Wide>(sorted: Seq<W>) -> (Seq<W>, Seq<nat>)
    decreases sorted.len(),
{
    if sorted.len() == 0 {
        (Seq::empty(), Seq::empty())
    } else {
        let (firsts, counts) = runs(sorted.drop_last());
        if firsts.len() > 0 && eq(firsts.last(), sorted.last()) {
            (firsts, counts.update(counts.len() - 1, counts.last() + 1))
        } else {
            (firsts.push(sorted.last()), counts.push(1))
        }
    }
}

/// Walks the first `n` runs and cuts after a run whenever the current bin holds
/// at least `size` values, as long as fewer than `bins` bins are in use. Gives the
/// runs that are cut after, and the number of values in the bin that is still
/// open.
pub open spec fn greedy_cuts(counts: Seq<nat>, size: nat, bins: nat, n: nat) -> (Seq<nat>, nat)
    decreases n,
{
    if n == 0 {
        (Seq::empty(), 0)
    } else {
        let (cuts, open) = greedy_cuts(counts, size, bins, (n - 1) as nat);
        let now = open + counts[n - 1];
        if now >= size && cuts.len() + 1 < bins {
            (cuts.push((n - 1) as nat), 0)
        } else {
            (cuts, now)
        }
    }
}

/// The cuts between runs of the given counts. When what is left for the last bin
/// is fewer than `least` values, it joins the bin before it.
pub open spec fn cuts_of(counts: Seq<nat>, size: nat, bins: nat, least: nat) -> Seq<nat> {
    let (cuts, open) = greedy_cuts(counts, size, bins, (counts.len() - 1) as nat);
    if cuts.len() > 0 && open + counts.last() < least {
        cuts.drop_last()
    } else {
        cuts
    }
}

/// The number of real bins that a cap of `max_bin` codes leaves.
pub open spec fn bin_budget(max_bin: usize) -> nat {
    if max_bin >= 2 {
        (max_bin - 1) as nat
    } else {
        1
    }
}

/// The larger of `least` and one.
pub open spec fn at_least_one(least: nat) -> nat {
    if least >= 1 {
        least
    } else {
        1
    }
}

/// How many values a bin should hold before it is closed: with few enough
/// `distinct` values no more than `least`, else an even share of all values.
pub open spec fn bin_size(total: nat, distinct: nat, bins: nat, least: nat) -> nat {
    let share = (total + bins - 1) as nat / bins;
    if distinct <= bins || share < at_least_one(least) {
        at_least_one(least)
    } else {
        share
    }
}

/// Halfway between the runs on either side of each cut.
pub open spec fn bounds_at<W: Wide>(firsts: Seq<W>, cuts: Seq<nat>) -> Seq<W> {
    Seq::new(
        cuts.len(),
        |i: int| midpoint(firsts[cuts[i] as int], firsts[cuts[i] as int + 1]),
    )
}

/// The cuts between the different values of a column.
pub open spec fn column_cuts<W: Wide>(values: Seq<W>, max_bin: usize, min_data: usize) -> Seq<
    nat,
> {
    let sorted = ascending(finite_of(values));
    let counts = runs(sorted).1;
    let budget = bin_budget(max_bin);
    if sorted.len() == 0 {
        Seq::empty()
    } else {
        cuts_of(
            counts,
            bin_size(sorted.len(), counts.len(), budget, min_data as nat),
            budget,
            min_data as nat,
        )
    }
}

/// The bounds that a column of values is binned by. Few enough different values
/// each get a bin of their own, else the bins are filled evenly; a bin with fewer
/// than `min_data` values is merged into a neighbour.
pub open spec fn bounds_of<W: Wide>(values: Seq<W>, max_bin: usize, min_data: usize) -> Seq<W> {
    bounds_at(runs(ascending(finite_of(values))).0, column_cuts(values, max_bin, min_data))
}

pub open spec fn numeric_binning<W>(upper_bounds: Seq<W>) -> Binning<W> {
    Binning { upper_bounds, categories: Seq::empty(), n_categorical_bins: 0 }
}

/// The sum of the first `n` counts.
pub open spec fn held(counts: Seq<nat>, n: nat) -> nat
    decreases n,
{
    if n == 0 {
        0
    } else {
        held(counts, (n - 1) as nat) + counts[n - 1]
    }
}

proof fn lemma_held_same(a: Seq<nat>, b: Seq<nat>, n: nat)
    requires
        n <= a.len(),
        n <= b.len(),
        forall|i: int| 0 <= i < n ==> a[i] == b[i],
    ensures
        held(a, n) == held(b, n),
    decreases n,
{
    if n > 0 {
        lemma_held_same(a, b, (n - 1) as nat);
    }
}

proof fn lemma_held_grows(counts: Seq<nat>, i: nat, n: nat)
    requires
        i <= n,
    ensures
        held(counts, i) <= held(counts, n),
    decreases n,
{
    if i < n {
        lemma_held_grows(counts, i, (n - 1) as nat);
    }
}

/// The runs of a list hold all of its numbers.
pub proof fn lemma_runs<W: Wide>(sorted: Seq<W>)
    ensures
        runs(sorted).0.len() == runs(sorted).1.len(),
        runs(sorted).0.len() <= sorted.len(),
        sorted.len() > 0 ==> runs(sorted).0.len() > 0,
        held(runs(sorted).1, runs(sorted).1.len()) == sorted.len(),
        forall|i: int| 0 <= i < runs(sorted).1.len() ==> (#[trigger] runs(sorted).1[i]) >= 1,
        forall|i: int| 0 <= i < runs(sorted).0.len() ==> sorted.contains(#[trigger] runs(sorted).0[i]),
    decreases sorted.len(),
{
    if sorted.len() > 0 {
        let before = runs(sorted.drop_last());
        lemma_runs(sorted.drop_last());
        let after = runs(sorted);
        lemma_held_same(before.1, after.1, (after.1.len() - 1) as nat);
        assert forall|i: int| 0 <= i < after.1.len() implies (#[trigger] after.1[i]) >= 1 by {
            if i < before.1.len() {
                assert(before.1[i] >= 1);
            }
        }
        assert(sorted.contains(sorted.last()));
        assert forall|i: int| 0 <= i < after.0.len() implies sorted.contains(
            #[trigger] after.0[i],
        ) by {
            if i < before.0.len() {
                let k = choose|k: int|
                    0 <= k < sorted.len() - 1 && sorted.drop_last()[k] == before.0[i];
                assert(sorted[k] == before.0[i]);
            }
        }
    }
}

/// Cuts ascend, and there are fewer of them than bins.
pub proof fn lemma_greedy(counts: Seq<nat>, size: nat, bins: nat, n: nat)
    requires
        n <= counts.len(),
        bins >= 1,
    ensures
        greedy_cuts(counts, size, bins, n).0.len() <= n,
        greedy_cuts(counts, size, bins, n).0.len() < bins,
        greedy_cuts(counts, size, bins, n).1 <= held(counts, n),
        forall|i: int|
            0 <= i < greedy_cuts(counts, size, bins, n).0.len() ==> (#[trigger] greedy_cuts(
                counts,
                size,
                bins,
                n,
            ).0[i]) < n,
        forall|i: int, j: int|
            #![trigger greedy_cuts(counts, size, bins, n).0[i], greedy_cuts(counts, size, bins, n).0[j]]
            0 <= i < j < greedy_cuts(counts, size, bins, n).0.len() ==> greedy_cuts(
                counts,
                size,
                bins,
                n,
            ).0[i] < greedy_cuts(counts, size, bins, n).0[j],
    decreases n,
{
    if n > 0 {
        lemma_greedy(counts, size, bins, (n - 1) as nat);
        let before = greedy_cuts(counts, size, bins, (n - 1) as nat).0;
        let after = greedy_cuts(counts, size, bins, n).0;
        assert forall|i: int| 0 <= i < after.len() implies (#[trigger] after[i]) < n by {
            if i < before.len() {
                assert(before[i] < n - 1);
            }
        }
        assert forall|i: int, j: int|
            #![trigger after[i], after[j]]
            0 <= i < j < after.len() implies after[i] < after[j] by {
            assert(before[i] < n - 1);
            if j < before.len() {
                assert(before[i] < before[j]);
            }
        }
    }
}

/// Cuts lie between runs, ascend, and leave room for all bins.
pub proof fn lemma_cuts(counts: Seq<nat>, size: nat, bins: nat, least: nat)
    requires
        counts.len() > 0,
        bins >= 1,
    ensures
        cuts_of(counts, size, bins, least).len() < counts.len(),
        cuts_of(counts, size, bins, least).len() < bins,
        forall|i: int|
            0 <= i < cuts_of(counts, size, bins, least).len() ==> (#[trigger] cuts_of(
                counts,
                size,
                bins,
                least,
            )[i]) < counts.len() - 1,
        forall|i: int, j: int|
            #![trigger cuts_of(counts, size, bins, least)[i], cuts_of(counts, size, bins, least)[j]]
            0 <= i < j < cuts_of(counts, size, bins, least).len() ==> cuts_of(
                counts,
                size,
                bins,
                least,
            )[i] < cuts_of(counts, size, bins, least)[j],
{
    let n = (counts.len() - 1) as nat;
    lemma_greedy(counts, size, bins, n);
    let all = greedy_cuts(counts, size, bins, n).0;
    let cuts = cuts_of(counts, size, bins, least);
    assert forall|i: int| 0 <= i < cuts.len() implies (#[trigger] cuts[i]) < counts.len() - 1 by {
        assert(all[i] < n);
    }
    assert forall|i: int, j: int|
        #![trigger cuts[i], cuts[j]]
        0 <= i < j < cuts.len() implies cuts[i] < cuts[j] by {
        assert(all[i] < all[j]);
    }
}

/// The finite values of a column.
fn finite_values<W: Wide>(values: &[W]) -> (r: Vec<W>)
    ensures
        r@ == finite_of(values@),
{
    let mut r: Vec<W> = Vec::new();
    let mut i: usize = 0;
    assert(values@.take(0) =~= Seq::empty());
    reveal(Seq::filter);
    while i < values.len()
        invariant
            i <= values@.len(),
            r@ == finite_of(values@.take(i as int)),
        decreases values@.len() - i,
    {
        reveal(Seq::filter);
        assert(values@.take(i + 1).drop_last() =~= values@.take(i as int));
        if values[i].is_finite() {
            r.push(values[i]);
        }
        i = i + 1;
    }
    assert(values@.take(i as int) =~= values@);
    r
}

fn sort_ascending<W: Wide>(values: &Vec<W>) -> (r: Vec<W>)
    ensures
        r@ == ascending(values@),
{
    let mut keys: Vec<u64> = Vec::with_capacity(values.len());
    let mut i: usize = 0;
    while i < values.len()
        invariant
            i <= values@.len(),
            keys@ =~= rank_keys(values@).take(i as int),
        decreases values@.len() - i,
    {
        keys.push(rank_ascending(values[i].rank()));
        i = i + 1;
    }
    assert(keys@ =~= rank_keys(values@));
    let order = order_by_key(keys.as_slice());
    proof {
        lemma_order_of(keys@);
    }
    let mut r: Vec<W> = Vec::with_capacity(values.len());
    let mut k: usize = 0;
    while k < values.len()
        invariant
            k <= values@.len(),
            keys@ == rank_keys(values@),
            order@ == order_of(keys@),
            order@.len() == values@.len(),
            forall|i: int| 0 <= i < order@.len() ==> (#[trigger] order@[i]) < values@.len(),
            r@ =~= ascending(values@).take(k as int),
        decreases values@.len() - k,
    {
        assert(order@[k as int] < values@.len());
        r.push(values[order[k]]);
        k = k + 1;
    }
    r
}

/// The runs of equal numbers in a sorted list.
fn count_runs<W: Wide>(sorted: &Vec<W>) -> (r: (Vec<W>, Vec<usize>))
    ensures
        r.0@ == runs(sorted@).0,
        r.1@.len() == runs(sorted@).1.len(),
        forall|i: int| 0 <= i < r.1@.len() ==> (#[trigger] r.1@[i]) == runs(sorted@).1[i],
{
    let mut firsts: Vec<W> = Vec::new();
    let mut counts: Vec<usize> = Vec::new();
    let mut k: usize = 0;
    assert(sorted@.take(0) =~= Seq::empty());
    while k < sorted.len()
        invariant
            k <= sorted@.len(),
            firsts@ == runs(sorted@.take(k as int)).0,
            counts@.len() == runs(sorted@.take(k as int)).1.len(),
            forall|i: int|
                0 <= i < counts@.len() ==> (#[trigger] counts@[i]) == runs(
                    sorted@.take(k as int),
                ).1[i],
        decreases sorted@.len() - k,
    {
        proof {
            lemma_runs(sorted@.take(k as int));
            assert(sorted@.take(k + 1).drop_last() =~= sorted@.take(k as int));
        }
        let v: W = sorted[k];
        let n: usize = firsts.len();
        if n > 0 && same(firsts[n - 1], v) {
            let c: usize = counts[n - 1];
            proof {
                let spec_counts = runs(sorted@.take(k as int)).1;
                assert(held(spec_counts, n as nat) == k);
                assert(c <= k);
            }
            counts.set(n - 1, c + 1);
        } else {
            firsts.push(v);
            counts.push(1);
        }
        k = k + 1;
    }
    assert(sorted@.take(k as int) =~= sorted@);
    (firsts, counts)
}

/// The cuts between runs of the given counts.
fn cut_runs(counts: &Vec<usize>, size: usize, bins: usize, least: usize, Ghost(all): Ghost<
    Seq<nat>,
>) -> (r: Vec<usize>)
    requires
        counts@.len() > 0,
        counts@.len() == all.len(),
        forall|i: int| 0 <= i < all.len() ==> (#[trigger] counts@[i]) == all[i],
        held(all, all.len()) <= usize::MAX,
        bins >= 1,
    ensures
        r@.len() == cuts_of(all, size as nat, bins as nat, least as nat).len(),
        forall|i: int|
            0 <= i < r@.len() ==> (#[trigger] r@[i]) == cuts_of(
                all,
                size as nat,
                bins as nat,
                least as nat,
            )[i],
{
    let n: usize = counts.len() - 1;
    let mut cuts: Vec<usize> = Vec::new();
    let mut open: usize = 0;
    let mut i: usize = 0;
    while i < n
        invariant
            i <= n,
            n == counts@.len() - 1,
            counts@.len() == all.len(),
            bins >= 1,
            forall|i: int| 0 <= i < all.len() ==> (#[trigger] counts@[i]) == all[i],
            held(all, all.len()) <= usize::MAX,
            open == greedy_cuts(all, size as nat, bins as nat, i as nat).1,
            cuts@.len() == greedy_cuts(all, size as nat, bins as nat, i as nat).0.len(),
            forall|k: int|
                0 <= k < cuts@.len() ==> (#[trigger] cuts@[k]) == greedy_cuts(
                    all,
                    size as nat,
                    bins as nat,
                    i as nat,
                ).0[k],
        decreases n - i,
    {
        proof {
            lemma_greedy(all, size as nat, bins as nat, i as nat);
            lemma_held_grows(all, (i + 1) as nat, all.len());
            assert(open + counts@[i as int] <= held(all, (i + 1) as nat));
        }
        open = open + counts[i];
        if open >= size && cuts.len() + 1 < bins {
            cuts.push(i);
            open = 0;
        }
        i = i + 1;
    }
    proof {
        lemma_greedy(all, size as nat, bins as nat, n as nat);
        assert(open + counts@[n as int] <= held(all, all.len()));
    }
    if cuts.len() > 0 && open + counts[n] < least {
        let ghost before = cuts@;
        cuts.pop();
        assert(cuts@ =~= before.drop_last());
    }
    cuts
}

impl<W: Wide> BinMapper<W> {
    fn numeric(upper_bounds: Vec<W>) -> (r: Self)
        ensures
            r@ == numeric_binning(upper_bounds@),
    {
        BinMapper { upper_bounds, categories: Vec::new(), n_categorical_bins: 0 }
    }

    /// Build a bin mapper from a column of raw values using quantile-aware
    /// greedy binning. Skips missing values when computing boundaries. Bins with
    /// fewer than `min_data_in_bin` values are merged into neighbours.
    pub fn fit(values: &[W], max_bin: usize, min_data_in_bin: usize) -> (r: Self)
        ensures
            r@ == numeric_binning(bounds_of(values@, max_bin, min_data_in_bin)),
            max_bin <= 0x10000 ==> r@.valid(),
    {
        proof {
            assert(values@.len() == values.len());
            lemma_numeric_valid(values@, max_bin, min_data_in_bin);
        }
        let finite: Vec<W> = finite_values(values);
        if finite.len() == 0 {
            let none: Vec<W> = Vec::new();
            assert(none@ =~= bounds_of(values@, max_bin, min_data_in_bin));
            return Self::numeric(none);
        }
        let sorted: Vec<W> = sort_ascending(&finite);
        let (firsts, counts) = count_runs(&sorted);
        let ghost all = runs(sorted@);
        proof {
            lemma_runs(sorted@);
        }
        let budget: usize = if max_bin >= 2 {
            max_bin - 1
        } else {
            1
        };
        let total: usize = sorted.len();
        proof {
            lemma_share(total as nat, budget as nat);
        }
        let share: usize = if total % budget == 0 {
            total / budget
        } else {
            total / budget + 1
        };
        let least: usize = if min_data_in_bin >= 1 {
            min_data_in_bin
        } else {
            1
        };
        let size: usize = if counts.len() <= budget || share < least {
            least
        } else {
            share
        };
        let cuts: Vec<usize> = cut_runs(&counts, size, budget, min_data_in_bin, Ghost(all.1));
        let ghost spec_cuts = column_cuts(values@, max_bin, min_data_in_bin);
        proof {
            lemma_cuts(all.1, size as nat, budget as nat, min_data_in_bin as nat);
            assert(sorted@ == ascending(finite_of(values@)));
            assert(spec_cuts == cuts_of(
                all.1,
                size as nat,
                budget as nat,
                min_data_in_bin as nat,
            ));
        }
        let mut upper_bounds: Vec<W> = Vec::with_capacity(cuts.len());
        let mut i: usize = 0;
        while i < cuts.len()
            invariant
                i <= cuts@.len() == spec_cuts.len(),
                firsts@ == all.0,
                all.0.len() == all.1.len(),
                forall|k: int| 0 <= k < cuts@.len() ==> (#[trigger] cuts@[k]) == spec_cuts[k],
                forall|k: int|
                    0 <= k < spec_cuts.len() ==> (#[trigger] spec_cuts[k]) < all.1.len() - 1,
                upper_bounds@ =~= bounds_at(all.0, spec_cuts).take(i as int),
            decreases cuts@.len() - i,
        {
            assert(cuts@[i as int] == spec_cuts[i as int]);
            assert(firsts@.len() == firsts.len());
            let c: usize = cuts[i];
            upper_bounds.push(halfway(firsts[c], firsts[c + 1]));
            i = i + 1;
        }
        assert(upper_bounds@ =~= bounds_of(values@, max_bin, min_data_in_bin));
        Self::numeric(upper_bounds)
    }
}

proof fn lemma_share(total: nat, bins: nat)
    requires
        bins >= 1,
        total >= 1,
    ensures
        (total + bins - 1) as nat / bins == if total % bins == 0 {
            total / bins
        } else {
            total / bins + 1
        },
        total % bins == 0 ==> total / bins >= 1,
        total % bins != 0 ==> total / bins + 1 <= total,
{
    let q = total / bins;
    let m = total % bins;
    vstd::arithmetic::div_mod::lemma_fundamental_div_mod(total as int, bins as int);
    assert(total == bins * q + m);
    assert(q <= bins * q && bins * q == q * bins) by (nonlinear_arith)
        requires
            bins >= 1,
    ;
    if m == 0 {
        assert(total + bins - 1 == bins * q + (bins - 1));
        vstd::arithmetic::div_mod::lemma_fundamental_div_mod_converse(
            total + bins - 1,
            bins as int,
            q as int,
            bins - 1,
        );
        if q == 0 {
            assert(bins * q == 0) by (nonlinear_arith)
                requires
                    q == 0,
            ;
        }
    } else {
        assert((q + 1) * bins == bins * q + bins) by (nonlinear_arith);
        vstd::arithmetic::div_mod::lemma_fundamental_div_mod_converse(
            total + bins - 1,
            bins as int,
            (q + 1) as int,
            m - 1,
        );
    }
}

/// Splitting a list where a property ends gives its filter.
pub proof fn lemma_filter_prefix<W: Wide>(bounds: Seq<W>, v: W, n: nat)
    requires
        n <= bounds.len(),
        forall|i: int| 0 <= i < n ==> lt(#[trigger] bounds[i], v),
        forall|i: int| n <= i < bounds.len() ==> !lt(#[trigger] bounds[i], v),
    ensures
        bounds_below(bounds, v) == n,
    decreases bounds.len(),
{
    reveal(Seq::filter);
    if bounds.len() > 0 {
        let rest = bounds.drop_last();
        if n == bounds.len() {
            lemma_filter_prefix(rest, v, (n - 1) as nat);
        } else {
            assert(!lt(bounds[bounds.len() - 1], v));
            lemma_filter_prefix(rest, v, n);
        }
    }
}

proof fn lemma_below_bound<W: Wide>(bounds: Seq<W>, v: W)
    ensures
        bounds_below(bounds, v) <= bounds.len(),
{
    bounds.lemma_filter_len(|b: W| lt(b, v));
}

impl<W: Wide> Binning<W> {
    /// Every value gets a bin code of its binning.
    pub proof fn lemma_code_in_range(self, v: W)
        requires
            self.valid(),
        ensures
            self.code_of(v) < self.bins(),
    {
        if v.finite() {
            if self.categories.len() > 0 {
                let bits = v.bits_of();
                if exists|i: int|
                    0 <= i < self.categories.len() && (#[trigger] self.categories[i]).0 == bits {
                    let i = category_at(self.categories, bits);
                    assert(self.categories[i].1 <= self.n_categorical_bins);
                }
            } else {
                lemma_below_bound(self.upper_bounds, v);
            }
        }
    }
}

impl<W: Wide> BinMapper<W> {
    /// The position of `bits` among the categories.
    fn find_category(&self, bits: u64) -> (r: Option<usize>)
        requires
            self@.valid(),
        ensures
            match r {
                Some(i) => i < self@.categories.len() && self@.categories[i as int].0 == bits,
                None => forall|i: int|
                    0 <= i < self@.categories.len() ==> (#[trigger] self@.categories[i]).0 != bits,
            },
    {
        let mut lo: usize = 0;
        let mut hi: usize = self.categories.len();
        while lo < hi
            invariant
                self@.valid(),
                lo <= hi <= self.categories@.len(),
                forall|i: int| 0 <= i < lo ==> (#[trigger] self.categories@[i]).0 < bits,
                forall|i: int|
                    hi <= i < self.categories@.len() ==> (#[trigger] self.categories@[i]).0 > bits,
            decreases hi - lo,
        {
            let mid: usize = lo + (hi - lo) / 2;
            let at: u64 = self.categories[mid].0;
            assert(self@.categories == self.categories@);
            if at == bits {
                return Some(mid);
            }
            if at < bits {
                lo = mid + 1;
            } else {
                hi = mid;
            }
        }
        None
    }

    /// Map a raw value to a bin code. Values that are not finite map to
    /// [`MISSING_BIN`].
    pub fn value_to_bin(&self, v: W) -> (r: u16)
        requires
            self@.valid(),
        ensures
            r == self@.code_of(v),
            r < self@.bins(),
    {
        proof {
            self@.lemma_code_in_range(v);
        }
        if !v.is_finite() {
            return MISSING_BIN;
        }
        if self.n_categorical_bins > 0 {
            return match self.find_category(v.to_bits()) {
                Some(i) => {
                    proof {
                        let bits = v.bits_of();
                        let cats = self@.categories;
                        let k = category_at(cats, bits);
                        assert(cats[i as int].0 == bits);
                        assert(k == i);
                    }
                    self.categories[i].1
                },
                None => MISSING_BIN,
            };
        }
        // Binary search for the first bound that is not below the value.
        let mut lo: usize = 0;
        let mut hi: usize = self.upper_bounds.len();
        proof {
            v.finite_compares();
        }
        while lo < hi
            invariant
                self@.valid(),
                v.rank_of() is Some,
                lo <= hi <= self.upper_bounds@.len(),
                forall|i: int| 0 <= i < lo ==> lt(#[trigger] self.upper_bounds@[i], v),
                forall|i: int|
                    hi <= i < self.upper_bounds@.len() ==> !lt(
                        #[trigger] self.upper_bounds@[i],
                        v,
                    ),
            decreases hi - lo,
        {
            let mid: usize = lo + (hi - lo) / 2;
            assert(self@.upper_bounds == self.upper_bounds@);
            assert(ascend(self.upper_bounds@));
            if less(self.upper_bounds[mid], v) {
                lo = mid + 1;
            } else {
                hi = mid;
            }
        }
        proof {
            lemma_filter_prefix(self.upper_bounds@, v, lo as nat);
        }
        lo as u16 + 1
    }
}

// Fitted bounds ascend.

/// All numbers are finite.
pub open spec fn all_finite<W: Wide>(values: Seq<W>) -> bool {
    forall|i: int| 0 <= i < values.len() ==> (#[trigger] values[i]).finite()
}

pub proof fn lemma_finite_of<W: Wide>(values: Seq<W>)
    ensures
        all_finite(finite_of(values)),
        finite_of(values).len() <= values.len(),
    decreases values.len(),
{
    reveal(Seq::filter);
    if values.len() > 0 {
        lemma_finite_of(values.drop_last());
        let rest = finite_of(values.drop_last());
        let all = finite_of(values);
        assert forall|i: int| 0 <= i < all.len() implies (#[trigger] all[i]).finite() by {
            if i < rest.len() {
                assert(rest[i].finite());
            }
        }
    }
}

pub proof fn lemma_ascending<W: Wide>(values: Seq<W>)
    requires
        all_finite(values),
        values.len() <= usize::MAX,
    ensures
        all_finite(ascending(values)),
        ascend(ascending(values)),
        ascending(values).len() == values.len(),
{
    let keys = rank_keys(values);
    lemma_order_of(keys);
    let order = order_of(keys);
    let sorted = ascending(values);
    assert forall|i: int| 0 <= i < sorted.len() implies (#[trigger] sorted[i]).finite() by {
        assert(order[i] < keys.len());
        assert(values[order[i] as int].finite());
    }
    assert forall|i: int, j: int|
        #![trigger sorted[i], sorted[j]]
        0 <= i <= j < sorted.len() implies le(sorted[i], sorted[j]) by {
        sorted[i].finite_compares();
        sorted[j].finite_compares();
        assert(order[i] < keys.len() && order[j] < keys.len());
        if i < j {
            assert(by_key(keys)(order[i], order[j]));
        }
    }
}

pub proof fn lemma_runs_ascend<W: Wide>(sorted: Seq<W>)
    requires
        all_finite(sorted),
        ascend(sorted),
    ensures
        all_finite(runs(sorted).0),
        ascend(runs(sorted).0),
        sorted.len() > 0 ==> runs(sorted).0.len() > 0 && le(runs(sorted).0.last(), sorted.last()),
    decreases sorted.len(),
{
    if sorted.len() > 0 {
        let rest = sorted.drop_last();
        let last = sorted.last();
        assert(sorted[sorted.len() - 1].finite());
        last.finite_compares();
        lemma_runs_ascend(rest);
        let before = runs(rest).0;
        let after = runs(sorted).0;
        if rest.len() > 0 {
            assert(le(before.last(), rest.last()));
            assert(le(sorted[sorted.len() - 2], sorted[sorted.len() - 1]));
        }
        lemma_runs(rest);
        if after.len() > before.len() {
            assert forall|i: int| 0 <= i < after.len() implies (#[trigger] after[i]).finite() by {
                if i < before.len() {
                    assert(before[i].finite());
                }
            }
            assert forall|i: int, j: int|
                #![trigger after[i], after[j]]
                0 <= i <= j < after.len() implies le(after[i], after[j]) by {
                if j < before.len() {
                    assert(le(before[i], before[j]));
                } else if i < before.len() {
                    assert(le(before[i], before[before.len() - 1]));
                }
            }
        }
    }
}

proof fn lemma_midpoints<W: Wide>(firsts: Seq<W>, i: int, j: int)
    requires
        all_finite(firsts),
        ascend(firsts),
        0 <= i <= j < firsts.len() - 1,
    ensures
        le(midpoint(firsts[i], firsts[i + 1]), midpoint(firsts[j], firsts[j + 1])),
{
    assert(firsts[i].finite() && firsts[i + 1].finite() && firsts[j].finite()
        && firsts[j + 1].finite());
    assert(le(firsts[i], firsts[j]));
    assert(le(firsts[i + 1], firsts[j + 1]));
    W::midpoints_ascend(firsts[i], firsts[i + 1], firsts[j], firsts[j + 1]);
}

/// What fitting a numeric column gives is valid, and has no more bins than it
/// may have.
pub proof fn lemma_numeric_valid<W: Wide>(values: Seq<W>, max_bin: usize, min_data: usize)
    requires
        values.len() <= usize::MAX,
    ensures
        ascend(bounds_of(values, max_bin, min_data)),
        bounds_of(values, max_bin, min_data).len() + 1 <= bin_budget(max_bin),
        bounds_of(values, max_bin, min_data).len() <= values.len(),
        max_bin <= 0x10000 ==> numeric_binning(bounds_of(values, max_bin, min_data)).valid(),
{
    lemma_finite_of(values);
    let sorted = ascending(finite_of(values));
    lemma_ascending(finite_of(values));
    lemma_runs(sorted);
    lemma_runs_ascend(sorted);
    let all = runs(sorted);
    let budget = bin_budget(max_bin);
    let bounds = bounds_of(values, max_bin, min_data);
    if sorted.len() > 0 {
        let size = bin_size(sorted.len(), all.1.len(), budget, min_data as nat);
        lemma_cuts(all.1, size, budget, min_data as nat);
        let cuts = column_cuts(values, max_bin, min_data);
        assert forall|i: int, j: int|
            #![trigger bounds[i], bounds[j]]
            0 <= i <= j < bounds.len() implies le(bounds[i], bounds[j]) by {
            assert(cuts[i] < all.1.len() - 1 && cuts[j] < all.1.len() - 1);
            if i < j {
                assert(cuts[i] < cuts[j]);
            }
            lemma_midpoints(all.0, cuts[i] as int, cuts[j] as int);
        }
    }
}

// Categorical features: one bin per kept value.

/// The bit patterns of the finite values.
pub open spec fn bits_of<W: Wide>(values: Seq<W>) -> Seq<u64> {
    let finite = finite_of(values);
    Seq::new(finite.len(), |i: int| finite[i].bits_of())
}

/// The different bit patterns in ascending order, each with the number of times
/// it occurs.
pub open spec fn tally(sorted: Seq<u64>) -> Seq<(u64, u64)>
    decreases sorted.len(),
{
    if sorted.len() == 0 {
        Seq::empty()
    } else {
        let before = tally(sorted.drop_last());
        if before.len() > 0 && before.last().0 == sorted.last() {
            before.update(before.len() - 1, (before.last().0, (before.last().1 + 1) as u64))
        } else {
            before.push((sorted.last(), 1))
        }
    }
}

pub open spec fn sorted_bits(bits: Seq<u64>) -> Seq<u64> {
    let order = order_of(bits);
    Seq::new(bits.len(), |i: int| bits[order[i] as int])
}

/// The positions of a tally, most frequent first; equally frequent bit patterns
/// in ascending order.
pub open spec fn by_frequency(tally: Seq<(u64, u64)>) -> Seq<usize> {
    order_of(Seq::new(tally.len(), |i: int| (u64::MAX - tally[i].1) as u64))
}

/// The most frequent bit patterns, with the codes `1, 2, ..` in that order.
pub open spec fn kept_categories(tally: Seq<(u64, u64)>, budget: nat) -> Seq<(u64, u16)> {
    let order = by_frequency(tally);
    Seq::new(
        if tally.len() <= budget {
            tally.len()
        } else {
            budget
        },
        |i: int| (tally[order[i] as int].0, (i + 1) as u16),
    )
}

/// Categories in ascending order of their bit patterns.
pub open spec fn by_bits(categories: Seq<(u64, u16)>) -> Seq<(u64, u16)> {
    let order = order_of(Seq::new(categories.len(), |i: int| categories[i].0));
    Seq::new(categories.len(), |i: int| categories[order[i] as int])
}

/// The binning of a categorical column: each of the most frequent values has its
/// own code. Without a finite value there is one bin, which nothing falls into.
pub open spec fn categorical_binning<W: Wide>(values: Seq<W>, max_bin: usize) -> Binning<W> {
    let kept = kept_categories(tally(sorted_bits(bits_of(values))), bin_budget(max_bin));
    Binning {
        upper_bounds: Seq::empty(),
        categories: by_bits(kept),
        n_categorical_bins: if kept.len() == 0 {
            1
        } else {
            kept.len() as u16
        },
    }
}

pub proof fn lemma_sorted_bits(bits: Seq<u64>)
    requires
        bits.len() <= usize::MAX,
    ensures
        sorted_bits(bits).len() == bits.len(),
        forall|i: int, j: int|
            #![trigger sorted_bits(bits)[i], sorted_bits(bits)[j]]
            0 <= i <= j < bits.len() ==> sorted_bits(bits)[i] <= sorted_bits(bits)[j],
{
    lemma_order_of(bits);
    let order = order_of(bits);
    assert forall|i: int, j: int|
        #![trigger sorted_bits(bits)[i], sorted_bits(bits)[j]]
        0 <= i <= j < bits.len() implies sorted_bits(bits)[i] <= sorted_bits(bits)[j] by {
        if i < j {
            assert(by_key(bits)(order[i], order[j]));
        }
    }
}

/// A tally of a sorted list lists its bit patterns in strictly ascending order.
pub proof fn lemma_tally(sorted: Seq<u64>)
    requires
        sorted.len() <= u64::MAX,
        forall|i: int, j: int|
            #![trigger sorted[i], sorted[j]]
            0 <= i <= j < sorted.len() ==> sorted[i] <= sorted[j],
    ensures
        tally(sorted).len() <= sorted.len(),
        sorted.len() > 0 ==> tally(sorted).len() > 0 && tally(sorted).last().0 == sorted.last(),
        forall|i: int, j: int|
            #![trigger tally(sorted)[i], tally(sorted)[j]]
            0 <= i < j < tally(sorted).len() ==> tally(sorted)[i].0 < tally(sorted)[j].0,
        forall|i: int|
            0 <= i < tally(sorted).len() ==> 1 <= (#[trigger] tally(sorted)[i]).1 <= sorted.len(),
    decreases sorted.len(),
{
    if sorted.len() > 0 {
        lemma_tally(sorted.drop_last());
        let before = tally(sorted.drop_last());
        let after = tally(sorted);
        if before.len() > 0 {
            assert(before.last().0 == sorted[sorted.len() - 2]);
            assert(before.last().1 <= sorted.len() - 1);
        }
        assert forall|i: int, j: int|
            #![trigger after[i], after[j]]
            0 <= i < j < after.len() implies after[i].0 < after[j].0 by {
            if j < before.len() {
                assert(before[i].0 < before[j].0);
            } else if i < before.len() - 1 {
                assert(before[i].0 < before[before.len() - 1].0);
            }
        }
        assert forall|i: int| 0 <= i < after.len() implies 1 <= (#[trigger] after[i]).1
            <= sorted.len() by {
            if i < before.len() {
                assert(1 <= before[i].1 <= sorted.len() - 1);
            }
        }
    }
}

pub proof fn lemma_by_bits(categories: Seq<(u64, u16)>)
    requires
        categories.len() <= usize::MAX,
        forall|i: int, j: int|
            #![trigger categories[i], categories[j]]
            0 <= i < j < categories.len() ==> categories[i].0 != categories[j].0,
    ensures
        by_bits(categories).len() == categories.len(),
        forall|i: int, j: int|
            #![trigger by_bits(categories)[i], by_bits(categories)[j]]
            0 <= i < j < categories.len() ==> by_bits(categories)[i].0 < by_bits(categories)[j].0,
        forall|i: int|
            0 <= i < categories.len() ==> categories.contains(#[trigger] by_bits(categories)[i]),
        forall|i: int|
            0 <= i < categories.len() ==> by_bits(categories).contains(#[trigger] categories[i]),
{
    let keys = Seq::new(categories.len(), |i: int| categories[i].0);
    lemma_order_of(keys);
    let order = order_of(keys);
    let sorted = by_bits(categories);
    assert forall|i: int, j: int|
        #![trigger sorted[i], sorted[j]]
        0 <= i < j < categories.len() implies sorted[i].0 < sorted[j].0 by {
        assert(by_key(keys)(order[i], order[j]));
        assert(order[i] != order[j]);
        assert(order[i] < keys.len() && order[j] < keys.len());
        if order[i] < order[j] {
            assert(categories[order[i] as int].0 != categories[order[j] as int].0);
        } else {
            assert(categories[order[j] as int].0 != categories[order[i] as int].0);
        }
    }
    assert forall|i: int| 0 <= i < categories.len() implies categories.contains(
        #[trigger] sorted[i],
    ) by {
        assert(order[i] < keys.len());
        assert(categories[order[i] as int] == sorted[i]);
    }
    assert forall|i: int| 0 <= i < categories.len() implies sorted.contains(
        #[trigger] categories[i],
    ) by {
        assert(order.contains(i as usize));
        let k = choose|k: int| 0 <= k < order.len() && order[k] == i as usize;
        assert(sorted[k] == categories[i]);
    }
}

/// A tally has at most as many entries as values, and the kept ones are
/// different.
pub proof fn lemma_kept(tally: Seq<(u64, u64)>, budget: nat)
    requires
        tally.len() <= usize::MAX,
        budget <= 0xffff || tally.len() <= 0xffff,
        forall|i: int, j: int|
            #![trigger tally[i], tally[j]]
            0 <= i < j < tally.len() ==> tally[i].0 < tally[j].0,
    ensures
        kept_categories(tally, budget).len() <= 0xffff,
        forall|i: int, j: int|
            #![trigger kept_categories(tally, budget)[i], kept_categories(tally, budget)[j]]
            0 <= i < j < kept_categories(tally, budget).len() ==> kept_categories(tally, budget)[i].0
                != kept_categories(tally, budget)[j].0,
        forall|i: int|
            0 <= i < kept_categories(tally, budget).len() ==> (#[trigger] kept_categories(
                tally,
                budget,
            )[i]).1 == i + 1,
{
    let keys = Seq::new(tally.len(), |i: int| (u64::MAX - tally[i].1) as u64);
    lemma_order_of(keys);
    let order = by_frequency(tally);
    let kept = kept_categories(tally, budget);
    assert forall|i: int, j: int|
        #![trigger kept[i], kept[j]]
        0 <= i < j < kept.len() implies kept[i].0 != kept[j].0 by {
        assert(order[i] != order[j]);
        assert(order[i] < keys.len() && order[j] < keys.len());
        if order[i] < order[j] {
            assert(tally[order[i] as int].0 < tally[order[j] as int].0);
        } else {
            assert(tally[order[j] as int].0 < tally[order[i] as int].0);
        }
    }
}

/// What fitting a categorical column gives is valid.
pub proof fn lemma_categorical_valid<W: Wide>(values: Seq<W>, max_bin: usize)
    requires
        max_bin <= 0x10000 || values.len() <= 0xffff,
        values.len() <= usize::MAX,
    ensures
        categorical_binning(values, max_bin).valid(),
        categorical_binning(values, max_bin).categorical(),
        categorical_binning(values, max_bin).real_bins() <= bin_budget(max_bin),
{
    let bits = bits_of(values);
    values.lemma_filter_len(|v: W| v.finite());
    lemma_sorted_bits(bits);
    let sorted = sorted_bits(bits);
    lemma_tally(sorted);
    let t = tally(sorted);
    let budget = bin_budget(max_bin);
    lemma_kept(t, budget);
    let kept = kept_categories(t, budget);
    lemma_by_bits(kept);
    let binning = categorical_binning(values, max_bin);
    assert forall|i: int| 0 <= i < binning.categories.len() implies 1 <= (
    #[trigger] binning.categories[i]).1 <= binning.n_categorical_bins by {
        assert(kept.contains(by_bits(kept)[i]));
        let k = choose|k: int| 0 <= k < kept.len() && kept[k] == by_bits(kept)[i];
        assert(kept[k].1 == k + 1);
    }
}

/// The bit patterns of the finite values, in ascending order.
fn ascending_bits<W: Wide>(values: &[W]) -> (r: Vec<u64>)
    ensures
        r@ == sorted_bits(bits_of(values@)),
{
    let finite: Vec<W> = finite_values(values);
    let mut bits: Vec<u64> = Vec::with_capacity(finite.len());
    let mut i: usize = 0;
    while i < finite.len()
        invariant
            i <= finite@.len(),
            finite@ == finite_of(values@),
            bits@ =~= bits_of(values@).take(i as int),
        decreases finite@.len() - i,
    {
        bits.push(finite[i].to_bits());
        i = i + 1;
    }
    assert(bits@ =~= bits_of(values@));
    let order: Vec<usize> = order_by_key(bits.as_slice());
    proof {
        lemma_order_of(bits@);
    }
    let mut r: Vec<u64> = Vec::with_capacity(bits.len());
    let mut k: usize = 0;
    while k < bits.len()
        invariant
            k <= bits@.len(),
            order@ == order_of(bits@),
            order@.len() == bits@.len(),
            forall|i: int| 0 <= i < order@.len() ==> (#[trigger] order@[i]) < bits@.len(),
            r@ =~= sorted_bits(bits@).take(k as int),
        decreases bits@.len() - k,
    {
        assert(order@[k as int] < bits@.len());
        r.push(bits[order[k]]);
        k = k + 1;
    }
    assert(r@ =~= sorted_bits(bits@));
    r
}

fn count_bits(sorted: &Vec<u64>) -> (r: Vec<(u64, u64)>)
    requires
        forall|i: int, j: int|
            #![trigger sorted@[i], sorted@[j]]
            0 <= i <= j < sorted@.len() ==> sorted@[i] <= sorted@[j],
    ensures
        r@ == tally(sorted@),
{
    let mut r: Vec<(u64, u64)> = Vec::new();
    let mut k: usize = 0;
    assert(sorted@.take(0) =~= Seq::empty());
    while k < sorted.len()
        invariant
            k <= sorted@.len(),
            forall|i: int, j: int|
                #![trigger sorted@[i], sorted@[j]]
                0 <= i <= j < sorted@.len() ==> sorted@[i] <= sorted@[j],
            r@ == tally(sorted@.take(k as int)),
        decreases sorted@.len() - k,
    {
        proof {
            lemma_tally(sorted@.take(k as int));
            assert(sorted@.take(k + 1).drop_last() =~= sorted@.take(k as int));
        }
        let b: u64 = sorted[k];
        let n: usize = r.len();
        if n > 0 && r[n - 1].0 == b {
            let count: u64 = r[n - 1].1;
            assert(r@[n - 1].1 <= k);
            r.set(n - 1, (b, count + 1));
        } else {
            r.push((b, 1));
        }
        k = k + 1;
    }
    assert(sorted@.take(k as int) =~= sorted@);
    r
}

fn keep_most_frequent(counted: &Vec<(u64, u64)>, budget: usize) -> (r: Vec<(u64, u16)>)
    requires
        budget <= 0xffff || counted@.len() <= 0xffff,
    ensures
        r@ == kept_categories(counted@, budget as nat),
{
    let mut keys: Vec<u64> = Vec::with_capacity(counted.len());
    let mut i: usize = 0;
    while i < counted.len()
        invariant
            i <= counted@.len(),
            keys@ =~= Seq::new(i as nat, |i: int| (u64::MAX - counted@[i].1) as u64),
        decreases counted@.len() - i,
    {
        keys.push(u64::MAX - counted[i].1);
        i = i + 1;
    }
    assert(keys@ =~= Seq::new(counted@.len(), |i: int| (u64::MAX - counted@[i].1) as u64));
    let order: Vec<usize> = order_by_key(keys.as_slice());
    proof {
        lemma_order_of(keys@);
    }
    let n: usize = if counted.len() <= budget {
        counted.len()
    } else {
        budget
    };
    let mut r: Vec<(u64, u16)> = Vec::with_capacity(n);
    let mut k: usize = 0;
    while k < n
        invariant
            k <= n <= counted@.len(),
            n <= 0xffff,
            n == kept_categories(counted@, budget as nat).len(),
            order@ == by_frequency(counted@),
            order@.len() == counted@.len(),
            forall|i: int| 0 <= i < order@.len() ==> (#[trigger] order@[i]) < counted@.len(),
            r@ =~= kept_categories(counted@, budget as nat).take(k as int),
        decreases n - k,
    {
        assert(order@[k as int] < counted@.len());
        r.push((counted[order[k]].0, k as u16 + 1));
        k = k + 1;
    }
    r
}

fn sort_by_bits(kept: &Vec<(u64, u16)>) -> (r: Vec<(u64, u16)>)
    ensures
        r@ == by_bits(kept@),
{
    let mut keys: Vec<u64> = Vec::with_capacity(kept.len());
    let mut i: usize = 0;
    while i < kept.len()
        invariant
            i <= kept@.len(),
            keys@ =~= Seq::new(i as nat, |i: int| kept@[i].0),
        decreases kept@.len() - i,
    {
        keys.push(kept[i].0);
        i = i + 1;
    }
    assert(keys@ =~= Seq::new(kept@.len(), |i: int| kept@[i].0));
    let order: Vec<usize> = order_by_key(keys.as_slice());
    proof {
        lemma_order_of(keys@);
    }
    let mut r: Vec<(u64, u16)> = Vec::with_capacity(kept.len());
    let mut k: usize = 0;
    while k < kept.len()
        invariant
            k <= kept@.len(),
            keys@ == Seq::new(kept@.len(), |i: int| kept@[i].0),
            order@ == order_of(keys@),
            order@.len() == kept@.len(),
            forall|i: int| 0 <= i < order@.len() ==> (#[trigger] order@[i]) < kept@.len(),
            r@ =~= by_bits(kept@).take(k as int),
        decreases kept@.len() - k,
    {
        assert(order@[k as int] < kept@.len());
        r.push(kept[order[k]]);
        k = k + 1;
    }
    r
}

impl<W: Wide> BinMapper<W> {
    /// Build a categorical bin mapper: each distinct finite value becomes its
    /// own bin code. Bin codes carry no order; the learner finds a subset per
    /// node. When there are more than `max_bin - 1` distinct values, only the
    /// most frequent ones get their own bin; the rare tail and missing or unseen
    /// values all map to the missing bin, which the split treats as one more
    /// category. A column without a finite value gets one real bin that nothing
    /// maps to.
    pub fn fit_categorical(values: &[W], max_bin: usize) -> (r: Self)
        requires
            max_bin <= 0x10000 || values@.len() <= 0xffff,
        ensures
            r@ == categorical_binning(values@, max_bin),
            r@.valid(),
    {
        let sorted: Vec<u64> = ascending_bits(values);
        proof {
            assert(values@.len() == values.len());
            values@.lemma_filter_len(|v: W| v.finite());
            lemma_sorted_bits(bits_of(values@));
            lemma_tally(sorted@);
            lemma_categorical_valid(values@, max_bin);
        }
        let counted: Vec<(u64, u64)> = count_bits(&sorted);
        let budget: usize = if max_bin >= 2 {
            max_bin - 1
        } else {
            1
        };
        let kept: Vec<(u64, u16)> = keep_most_frequent(&counted, budget);
        proof {
            lemma_kept(counted@, budget as nat);
        }
        let n_categorical_bins: u16 = if kept.len() == 0 {
            1
        } else {
            kept.len() as u16
        };
        BinMapper { upper_bounds: Vec::new(), categories: sort_by_bits(&kept), n_categorical_bins }
    }
}

impl<W: Wide> BinMapper<W> {
    /// A mapper from stored parts; [`BinMapper::is_valid`] tells whether it can
    /// be used.
    pub fn from_parts(
        upper_bounds: Vec<W>,
        categories: Vec<(u64, u16)>,
        n_categorical_bins: u16,
    ) -> (r: Self)
        ensures
            r@ == (Binning {
                upper_bounds: upper_bounds@,
                categories: categories@,
                n_categorical_bins,
            }),
    {
        BinMapper { upper_bounds, categories, n_categorical_bins }
    }

    /// The bit patterns of the categories with their codes, by bit pattern.
    pub fn categories(&self) -> (r: &[(u64, u16)])
        ensures
            r@ == self@.categories,
    {
        self.categories.as_slice()
    }

    /// A copy of this mapper.
    pub fn copy(&self) -> (r: Self)
        ensures
            r@ == self@,
    {
        BinMapper {
            upper_bounds: slice_to_vec(self.upper_bounds.as_slice()),
            categories: slice_to_vec(self.categories.as_slice()),
            n_categorical_bins: self.n_categorical_bins,
        }
    }

    /// Whether raw values can be mapped with this mapper.
    pub fn is_valid(&self) -> (r: bool)
        ensures
            r == self@.valid(),
    {
        let n: usize = self.upper_bounds.len();
        if n > 0xfffe && self.n_categorical_bins == 0 {
            return false;
        }
        if self.categories.len() != self.n_categorical_bins as usize && !(self.categories.len()
            == 0 && self.n_categorical_bins == 1) {
            return false;
        }
        let mut i: usize = 0;
        while i < n
            invariant
                i <= n == self.upper_bounds@.len(),
                ascend(self.upper_bounds@.take(i as int)),
            decreases n - i,
        {
            let here: W = self.upper_bounds[i];
            let ghost bounds = self.upper_bounds@;
            if !at_most(here, here) {
                assert(!le(bounds[i as int], bounds[i as int]));
                return false;
            }
            if i > 0 && !at_most(self.upper_bounds[i - 1], here) {
                assert(!le(bounds[i - 1], bounds[i as int]));
                return false;
            }
            proof {
                let seen = bounds.take(i + 1);
                assert forall|a: int, b: int|
                    #![trigger seen[a], seen[b]]
                    0 <= a <= b < seen.len() implies le(seen[a], seen[b]) by {
                    if b < i {
                        assert(le(bounds.take(i as int)[a], bounds.take(i as int)[b]));
                    } else if a < i {
                        assert(le(bounds.take(i as int)[a], bounds.take(i as int)[i - 1]));
                    }
                }
            }
            i = i + 1;
        }
        assert(self.upper_bounds@.take(n as int) =~= self.upper_bounds@);
        let m: usize = self.categories.len();
        let mut k: usize = 0;
        while k < m
            invariant
                k <= m == self.categories@.len(),
                forall|i: int, j: int|
                    #![trigger self.categories@[i], self.categories@[j]]
                    0 <= i < j < k ==> self.categories@[i].0 < self.categories@[j].0,
                forall|i: int|
                    0 <= i < k ==> 1 <= (#[trigger] self.categories@[i]).1
                        <= self.n_categorical_bins,
            decreases m - k,
        {
            let ghost cats = self@.categories;
            let (bits, code) = self.categories[k];
            if code < 1 || code > self.n_categorical_bins {
                assert(cats[k as int].1 == code);
                return false;
            }
            if k > 0 && self.categories[k - 1].0 >= bits {
                assert(!(cats[k - 1].0 < cats[k as int].0));
                return false;
            }
            proof {
                assert forall|i: int, j: int|
                    #![trigger self.categories@[i], self.categories@[j]]
                    0 <= i < j < k + 1 implies self.categories@[i].0 < self.categories@[j].0 by {
                    if j == k && i < k - 1 {
                        assert(self.categories@[i].0 < self.categories@[k - 1].0);
                    }
                }
            }
            k = k + 1;
        }
        true
    }
}

} // verus!
