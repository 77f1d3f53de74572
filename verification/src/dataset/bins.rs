//! What the bins of a column hold.

use vstd::prelude::*;

use crate::dataset::bin_mapper::{
    all_finite, ascend, ascending, bin_budget, bin_size, bits_of, bounds_of, by_bits,
    by_frequency, categorical_binning, category_code, column_cuts, finite_of, greedy_cuts, held,
    kept_categories, lemma_ascending, lemma_categorical_valid, lemma_finite_of,
    lemma_greedy, lemma_numeric_valid, lemma_runs, lemma_runs_ascend, rank_keys, runs,
    sorted_bits, tally,
};
use crate::dataset::builder::{coded_table, fitted, table_of, width_for, Caps};
use crate::dataset::laws::{
    bin_start, lemma_category_code, lemma_fitted, lemma_mapped_multiset,
};
use crate::dataset::{BinWidth, Binning, MISSING_BIN};
use crate::number::{eq, le, lt, Wide};
use crate::order::{by_key, lemma_order_of, order_of, positions};

verus! {

// The different values of a column.

/// Sorting keeps every number, as often as it occurs.
pub proof fn law_ascending_keeps<W: Wide>(values: Seq<W>)
    requires
        all_finite(values),
        values.len() <= usize::MAX,
    ensures
        ascending(values).to_multiset() == values.to_multiset(),
        ascend(ascending(values)),
{
    let keys = rank_keys(values);
    lemma_order_of(keys);
    lemma_ascending(values);
    let pick = |p: usize| values[p as int];
    let all = positions(0, values.len() as int);
    lemma_mapped_multiset(order_of(keys), all, pick);
    assert(order_of(keys).map_values(pick) =~= ascending(values));
    assert(all.map_values(pick) =~= values);
}

/// How many of `values` are the same number as `v`.
pub open spec fn occurrences<W: Wide>(values: Seq<W>, v: W) -> nat {
    values.filter(|x: W| eq(x, v)).len()
}

/// The runs of an ascending list are its different numbers in strictly ascending
/// order, each with the number of its occurrences.
pub proof fn law_runs<W: Wide>(sorted: Seq<W>)
    requires
        all_finite(sorted),
        ascend(sorted),
    ensures
        ({
            let (distinct, counts) = runs(sorted);
            &&& distinct.len() == counts.len()
            &&& forall|i: int, j: int|
                #![trigger distinct[i], distinct[j]]
                0 <= i < j < distinct.len() ==> lt(distinct[i], distinct[j])
            &&& forall|i: int|
                0 <= i < distinct.len() ==> (#[trigger] counts[i]) == occurrences(
                    sorted,
                    distinct[i],
                )
            &&& sorted.len() > 0 ==> distinct.len() > 0 && eq(distinct.last(), sorted.last())
        }),
    decreases sorted.len(),
{
    reveal(Seq::filter);
    if sorted.len() > 0 {
        let rest = sorted.drop_last();
        let x = sorted.last();
        assert forall|i: int, j: int|
            #![trigger rest[i], rest[j]]
            0 <= i <= j < rest.len() implies le(rest[i], rest[j]) by {
            assert(le(sorted[i], sorted[j]));
        }
        assert forall|i: int| 0 <= i < rest.len() implies (#[trigger] rest[i]).finite() by {
            assert(sorted[i].finite());
        }
        law_runs(rest);
        lemma_runs(rest);
        lemma_runs_ascend(rest);
        assert(sorted[sorted.len() - 1].finite());
        x.finite_compares();
        let (before, old_counts) = runs(rest);
        let (after, counts) = runs(sorted);
        if rest.len() > 0 {
            assert(le(sorted[sorted.len() - 2], sorted[sorted.len() - 1]));
            assert(eq(before.last(), rest.last()));
            assert(le(before.last(), x));
        } else {
            assert(before.len() == 0);
            assert(rest =~= Seq::<W>::empty());
        }
        assert forall|i: int| 0 <= i < before.len() implies (#[trigger] before[i]).finite() && le(
            before[i],
            x,
        ) by {
            before[i].finite_compares();
            assert(le(before[i], before[before.len() - 1]));
        }
        if after.len() > before.len() {
            assert forall|i: int| 0 <= i < before.len() implies lt(#[trigger] before[i], x) by {
                assert(le(before[i], before[before.len() - 1]));
            }
            lemma_occurs_not(rest, before, x);
        }
        assert forall|i: int| 0 <= i < after.len() implies (#[trigger] counts[i]) == occurrences(
            sorted,
            after[i],
        ) by {
            let v = after[i];
            assert(sorted.filter(|y: W| eq(y, v)) == if eq(x, v) {
                rest.filter(|y: W| eq(y, v)).push(x)
            } else {
                rest.filter(|y: W| eq(y, v))
            });
            if i < before.len() {
                assert(after[i] == before[i]);
                assert(old_counts[i] == occurrences(rest, before[i]));
                if i < before.len() - 1 {
                    assert(lt(before[i], before[before.len() - 1]));
                }
            }
        }
    }
}

/// A number above all runs does not occur.
proof fn lemma_occurs_not<W: Wide>(list: Seq<W>, distinct: Seq<W>, x: W)
    requires
        all_finite(list),
        ascend(list),
        x.rank_of() is Some,
        list.len() > 0 ==> lt(list.last(), x) || (distinct.len() > 0 && eq(
            distinct.last(),
            list.last(),
        ) && lt(distinct.last(), x)),
    ensures
        occurrences(list, x) == 0,
    decreases list.len(),
{
    reveal(Seq::filter);
    if list.len() > 0 {
        let rest = list.drop_last();
        assert forall|i: int, j: int|
            #![trigger rest[i], rest[j]]
            0 <= i <= j < rest.len() implies le(rest[i], rest[j]) by {
            assert(le(list[i], list[j]));
        }
        assert forall|i: int| 0 <= i < rest.len() implies (#[trigger] rest[i]).finite() by {
            assert(list[i].finite());
        }
        if rest.len() > 0 {
            assert(le(list[list.len() - 2], list[list.len() - 1]));
        }
        lemma_occurs_not(rest, distinct, x);
    }
}

// Numeric bins.

/// `size` values fill a bin: as many as a bin needs at least, and with more different
/// values than bins no fewer than an even share, rounded up.
pub open spec fn fills_a_bin(total: nat, distinct: nat, bins: nat, least: nat, size: nat) -> bool {
    &&& size >= 1 && size >= least
    &&& distinct <= bins ==> size == 1 || size == least
    &&& distinct > bins ==> {
        &&& size * bins >= total
        &&& size > 1 && size > least ==> (size - 1) * bins < total
    }
}

proof fn lemma_bin_size(total: nat, distinct: nat, bins: nat, least: nat)
    requires
        bins >= 1,
    ensures
        fills_a_bin(total, distinct, bins, least, bin_size(total, distinct, bins, least)),
{
    let share = (total + bins - 1) as nat / bins;
    assert(share * bins >= total && (share > 0 ==> (share - 1) * bins < total)) by (nonlinear_arith)
        requires
            share == (total + bins - 1) as nat / bins,
            bins >= 1,
    ;
    let size = bin_size(total, distinct, bins, least);
    if distinct > bins {
        assert(size * bins >= share * bins) by (nonlinear_arith)
            requires
                size >= share,
                bins >= 1,
        ;
    }
}

proof fn lemma_greedy_closes(counts: Seq<nat>, size: nat, bins: nat, n: nat)
    ensures
        ({
            let (cuts, open) = greedy_cuts(counts, size, bins, n);
            &&& open < size || cuts.len() + 1 >= bins || size == 0
            &&& open + held(counts, bin_start(cuts, cuts.len() as int)) == held(counts, n)
            &&& forall|m: int| 0 <= m < cuts.len() ==> #[trigger] closes_at(counts, cuts, m, size)
        }),
    decreases n,
{
    if n > 0 {
        lemma_greedy_closes(counts, size, bins, (n - 1) as nat);
        let (before, open) = greedy_cuts(counts, size, bins, (n - 1) as nat);
        let after = greedy_cuts(counts, size, bins, n).0;
        assert forall|m: int| 0 <= m < after.len() implies #[trigger] closes_at(
            counts,
            after,
            m,
            size,
        ) by {
            if m < before.len() {
                assert(closes_at(counts, before, m, size));
            } else {
                assert(bin_start(after, m) == bin_start(before, before.len() as int));
            }
        }
    }
}

/// The `m`-th bin is closed by the run that fills it: with that run it holds at least
/// `size` values, without it fewer.
pub open spec fn closes_at(counts: Seq<nat>, cuts: Seq<nat>, m: int, size: nat) -> bool {
    let start = held(counts, bin_start(cuts, m));
    held(counts, cuts[m] + 1) >= start + size && (size > 0 ==> held(counts, cuts[m]) < start + size)
}

/// The number of real bins that a cap leaves: one code is for missing values.
pub open spec fn real_cap(max_bin: usize) -> nat {
    if max_bin >= 2 {
        (max_bin - 1) as nat
    } else {
        1
    }
}

/// Every bin but the last is closed by the value that fills it. The last bin starts
/// after the last cut; it goes on to the end because all bins are in use, or because
/// the values before the last one do not fill another bin, or because what was left
/// was too little for a bin of its own.
pub proof fn law_bins_fill_in_turn<W: Wide>(
    values: Seq<W>,
    max_bin: usize,
    min_data: usize,
    m: int,
)
    requires
        finite_of(values).len() > 0,
        values.len() <= usize::MAX,
        0 <= m <= column_cuts(values, max_bin, min_data).len(),
    ensures
        ({
            let sorted = ascending(finite_of(values));
            let counts = runs(sorted).1;
            let cuts = column_cuts(values, max_bin, min_data);
            let bins = real_cap(max_bin);
            exists|size: nat|
                {
                    &&& #[trigger] fills_a_bin(
                        sorted.len(),
                        counts.len(),
                        bins,
                        min_data as nat,
                        size,
                    )
                    &&& m < cuts.len() ==> closes_at(counts, cuts, m, size)
                    &&& m == cuts.len() ==> last_bin_is_open(
                        counts,
                        cuts,
                        bins,
                        min_data as nat,
                        size,
                    )
                }
        }),
{
    let sorted = ascending(finite_of(values));
    let counts = runs(sorted).1;
    let cuts = column_cuts(values, max_bin, min_data);
    let bins = real_cap(max_bin);
    lemma_finite_of(values);
    lemma_ascending(finite_of(values));
    lemma_runs(sorted);
    let size = bin_size(sorted.len(), counts.len(), bins, min_data as nat);
    lemma_bin_size(sorted.len(), counts.len(), bins, min_data as nat);
    let n = (counts.len() - 1) as nat;
    lemma_greedy_closes(counts, size, bins, n);
    lemma_greedy(counts, size, bins, n);
    let (all, open) = greedy_cuts(counts, size, bins, n);
    if m < cuts.len() {
        assert(closes_at(counts, all, m, size));
        assert(bin_start(cuts, m) == bin_start(all, m)) by {
            if m > 0 {
                assert(cuts[m - 1] == all[m - 1]);
            }
        }
        assert(closes_at(counts, cuts, m, size));
    } else if cuts.len() < all.len() {
        let c = all.last();
        assert(closes_at(counts, all, m, size));
        assert(bin_start(cuts, m) == bin_start(all, m)) by {
            if m > 0 {
                assert(cuts[m - 1] == all[m - 1]);
            }
        }
        assert(held(counts, counts.len()) == held(counts, n) + counts.last());
        assert(merged_at(counts, cuts, min_data as nat, size, c));
    }
}

/// What is left after run `c`, which would fill the last bin, is fewer than `least`
/// values.
pub open spec fn merged_at(
    counts: Seq<nat>,
    cuts: Seq<nat>,
    least: nat,
    size: nat,
    c: nat,
) -> bool {
    &&& c < counts.len()
    &&& held(counts, c + 1) >= held(counts, bin_start(cuts, cuts.len() as int)) + size
    &&& held(counts, counts.len()) < held(counts, c + 1) + least
}

/// Why there is no further cut.
pub open spec fn last_bin_is_open(
    counts: Seq<nat>,
    cuts: Seq<nat>,
    bins: nat,
    least: nat,
    size: nat,
) -> bool {
    ||| cuts.len() + 1 >= bins
    ||| held(counts, (counts.len() - 1) as nat) < held(
        counts,
        bin_start(cuts, cuts.len() as int),
    ) + size
    ||| exists|c: nat| #[trigger] merged_at(counts, cuts, least, size, c)
}

/// A bound lies halfway between the last value of its bin and the first value of the
/// next.
pub proof fn law_bounds_halfway<W: Wide>(values: Seq<W>, max_bin: usize, min_data: usize, m: int)
    requires
        0 <= m < column_cuts(values, max_bin, min_data).len(),
    ensures
        ({
            let distinct = runs(ascending(finite_of(values))).0;
            let c = column_cuts(values, max_bin, min_data)[m] as int;
            let bounds = bounds_of(values, max_bin, min_data);
            &&& bounds.len() == column_cuts(values, max_bin, min_data).len()
            &&& bounds[m] == distinct[c].sum_of(distinct[c + 1]).quotient_of(W::ratio_of(2, 1))
        }),
{
}

// Caps and tables.

/// A categorical column is binned by category within `max_cat_bins`, a numeric one by
/// bounds within `max_bin`; one of the bins is for missing values.
pub proof fn law_column_caps<W: Wide>(values: Seq<W>, categorical: bool, caps: Caps)
    requires
        2 <= caps.max_bin <= 0x10000,
        2 <= caps.max_cat_bins <= 0x10000,
        values.len() <= usize::MAX,
    ensures
        ({
            let binning = fitted(values, categorical, caps);
            &&& binning.categorical() == categorical
            &&& categorical ==> binning.bins() <= caps.max_cat_bins
            &&& !categorical ==> binning.bins() <= caps.max_bin && binning.categories.len() == 0
            &&& binning.valid()
        }),
{
    lemma_numeric_valid(values, caps.max_bin, caps.min_data_in_bin);
    lemma_categorical_valid(values, caps.max_cat_bins);
}

/// A dataset holds the labels and, for every column and row, the code that the
/// binning of the column gives the raw value.
pub proof fn law_table<W: Wide>(
    columns: Seq<Seq<W>>,
    categorical: Seq<bool>,
    caps: Caps,
    labels: Seq<W::Narrow>,
    f: int,
    r: int,
)
    requires
        0 <= f < columns.len(),
        0 <= r < columns[f].len(),
    ensures
        ({
            let table = table_of(columns, categorical, caps, labels);
            &&& table.labels == labels
            &&& table.rows == columns[0].len()
            &&& table.codes.len() == columns.len() && table.binnings.len() == columns.len()
            &&& table.codes[f].len() == columns[f].len()
            &&& table.codes[f][r] == table.binnings[f].code_of(columns[f][r])
            &&& table.binnings[f] == fitted(columns[f], categorical[f], caps)
            &&& forall|other: Seq<Seq<W>>|
                other.len() == columns.len() && r < (#[trigger] other[f]).len() ==> coded_table(
                    other,
                    table.binnings,
                    labels,
                ).codes[f][r] == table.binnings[f].code_of(other[f][r])
        }),
{
}

/// Codes are stored in one byte each exactly when one byte can hold the largest code
/// of every column.
pub proof fn law_stored_width<W: Wide>(binnings: Seq<Binning<W>>)
    ensures
        width_for(binnings) == BinWidth::U8 <==> forall|f: int|
            0 <= f < binnings.len() ==> (#[trigger] binnings[f]).real_bins() <= u8::MAX,
{
    if forall|f: int| 0 <= f < binnings.len() ==> (#[trigger] binnings[f]).real_bins() <= u8::MAX {
        assert forall|f: int| 0 <= f < binnings.len() implies (#[trigger] binnings[f]).bins()
            <= 256 by {
            assert(binnings[f].real_bins() <= u8::MAX);
        }
    }
}

// Categories.

/// Categories are coded from 1 on by how often they occur, the most frequent first;
/// equally frequent ones by their bits.
pub proof fn law_codes_by_frequency<W: Wide>(values: Seq<W>, max_bin: usize, a: u64, b: u64)
    requires
        max_bin <= 0x10000,
        values.len() <= usize::MAX,
        ({
            let categories = categorical_binning(values, max_bin).categories;
            &&& category_code(categories, a) != MISSING_BIN
            &&& category_code(categories, a) < category_code(categories, b)
        }),
    ensures
        ({
            let count = |x: u64| bits_of(values).to_multiset().count(x);
            count(a) > count(b) || (count(a) == count(b) && a < b)
        }),
{
    let bits = bits_of(values);
    let t = tally(sorted_bits(bits));
    let budget = bin_budget(max_bin);
    let kept = kept_categories(t, budget);
    let categories = categorical_binning(values, max_bin).categories;
    let keys = Seq::new(t.len(), |i: int| (u64::MAX - t[i].1) as u64);
    let order = by_frequency(t);
    lemma_fitted(values, max_bin);
    lemma_order_of(keys);
    let i = lemma_category_code(categories, a);
    let j = lemma_category_code(categories, b);
    assert(kept.contains(by_bits(kept)[i]));
    assert(kept.contains(by_bits(kept)[j]));
    let p = choose|p: int| 0 <= p < kept.len() && kept[p] == by_bits(kept)[i];
    let q = choose|q: int| 0 <= q < kept.len() && kept[q] == by_bits(kept)[j];
    assert(kept[p].1 == p + 1 && kept[q].1 == q + 1);
    assert(p < q);
    let x = order[p] as int;
    let y = order[q] as int;
    assert(order[p] < keys.len() && order[q] < keys.len());
    assert(by_key(keys)(order[p], order[q]));
    assert(order[p] != order[q]);
    assert(t[x].0 == a && t[y].0 == b);
    assert(t[x].1 == bits.to_multiset().count(t[x].0));
    assert(t[y].1 == bits.to_multiset().count(t[y].0));
    if keys[x] == keys[y] {
        assert(x < y);
        assert(t[x].0 < t[y].0);
    }
}

} // verus!
