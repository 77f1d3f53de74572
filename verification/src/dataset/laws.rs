//! What holds of every fitted binning.

use vstd::prelude::*;
use vstd::seq_lib::lemma_sorted_unique;

use crate::dataset::bin_mapper::{
    all_finite, ascend, ascending, at_least_one, bin_budget, bin_size, bits_of, bounds_below,
    bounds_of, by_bits, by_frequency, categorical_binning, category_at, category_code, column_cuts,
    finite_of, greedy_cuts, held, kept_categories, lemma_ascending, lemma_by_bits,
    lemma_categorical_valid, lemma_cuts, lemma_filter_prefix, lemma_finite_of, lemma_kept,
    lemma_numeric_valid, lemma_runs, lemma_runs_ascend, lemma_sorted_bits, lemma_tally,
    numeric_binning, rank_keys, runs, sorted_bits, tally, Binning,
};
use crate::dataset::MISSING_BIN;
use crate::number::{eq, le, lt, midpoint, Wide};
use crate::order::{ascending_key, by_key, lemma_order_of, order_of, positions};

verus! {

/// A value that is not finite is missing, and a finite value of a numeric
/// feature never is.
pub proof fn law_missing<W: Wide>(binning: Binning<W>, v: W)
    requires
        binning.valid(),
    ensures
        !v.finite() ==> binning.code_of(v) == MISSING_BIN,
        v.finite() && !binning.categorical() ==> binning.code_of(v) != MISSING_BIN,
        binning.code_of(v) < binning.bins(),
{
    binning.lemma_code_in_range(v);
    binning.upper_bounds.lemma_filter_len(|b: W| lt(b, v));
}

/// The bounds below a value come before all others.
proof fn lemma_split_point<W: Wide>(bounds: Seq<W>, v: W, n: nat)
    requires
        ascend(bounds),
        v.rank_of() is Some,
        n <= bounds.len(),
        forall|i: int| n <= i < bounds.len() ==> !lt(#[trigger] bounds[i], v),
    ensures
        forall|i: int| 0 <= i < bounds_below(bounds, v) ==> lt(#[trigger] bounds[i], v),
        forall|i: int|
            bounds_below(bounds, v) <= i < bounds.len() ==> !lt(#[trigger] bounds[i], v),
        bounds_below(bounds, v) <= bounds.len(),
    decreases n,
{
    if n > 0 && !lt(bounds[n - 1], v) {
        lemma_split_point(bounds, v, (n - 1) as nat);
    } else {
        assert forall|i: int| 0 <= i < n implies lt(#[trigger] bounds[i], v) by {
            assert(le(bounds[i], bounds[n - 1]));
        }
        lemma_filter_prefix(bounds, v, n);
    }
}

/// Bin `c` of a numeric feature covers the values above bound `c - 2` and up to
/// bound `c - 1`, inclusive.
pub proof fn law_bin_interval<W: Wide>(binning: Binning<W>, v: W)
    requires
        binning.valid(),
        !binning.categorical(),
        v.finite(),
    ensures
        ({
            let c = binning.code_of(v);
            &&& 1 <= c <= binning.real_bins()
            &&& c >= 2 ==> lt(binning.upper_bounds[c - 2], v)
            &&& c <= binning.upper_bounds.len() ==> le(v, binning.upper_bounds[c - 1])
        }),
{
    let bounds = binning.upper_bounds;
    v.finite_compares();
    lemma_split_point(bounds, v, bounds.len());
    let c = binning.code_of(v);
    if c >= 2 {
        assert(lt(bounds[c - 2], v));
    }
    if c <= bounds.len() {
        assert(!lt(bounds[c - 1], v));
        assert(le(bounds[c - 1], bounds[c - 1]));
    }
}

/// Larger values of a numeric feature never get smaller bins.
pub proof fn law_bins_keep_order<W: Wide>(binning: Binning<W>, a: W, b: W)
    requires
        binning.valid(),
        !binning.categorical(),
        a.finite(),
        b.finite(),
        le(a, b),
    ensures
        binning.code_of(a) <= binning.code_of(b),
{
    let bounds = binning.upper_bounds;
    a.finite_compares();
    b.finite_compares();
    lemma_split_point(bounds, a, bounds.len());
    lemma_split_point(bounds, b, bounds.len());
    let m = bounds_below(bounds, b);
    if bounds_below(bounds, a) > m {
        assert(lt(bounds[m as int], a));
        assert(!lt(bounds[m as int], b));
    }
}

/// No column gets more than `max_bin - 1` real bins.
pub proof fn law_bins_capped<W: Wide>(values: Seq<W>, max_bin: usize, min_data: usize)
    requires
        2 <= max_bin <= 0x10000,
        values.len() <= usize::MAX,
    ensures
        numeric_binning(bounds_of(values, max_bin, min_data)).real_bins() <= max_bin - 1,
        categorical_binning(values, max_bin).real_bins() <= max_bin - 1,
{
    lemma_numeric_valid(values, max_bin, min_data);
    lemma_categorical_valid(values, max_bin);
}

/// Whether the point halfway between the `k`-th number and the next tells them
/// apart.
pub open spec fn apart_at<W: Wide>(distinct: Seq<W>, k: int) -> bool {
    let halfway = midpoint(distinct[k], distinct[k + 1]);
    le(distinct[k], halfway) && lt(halfway, distinct[k + 1])
}

/// Whether the point halfway between each two neighbours tells them apart.
pub open spec fn told_apart<W: Wide>(distinct: Seq<W>) -> bool {
    forall|k: int| 0 <= k < distinct.len() - 1 ==> #[trigger] apart_at(distinct, k)
}

/// The `k`-th distinct value of a column falls into the bin between the cuts
/// around it, as long as the point halfway between two neighbours tells them apart.
pub proof fn law_bin_between_cuts<W: Wide>(
    values: Seq<W>,
    max_bin: usize,
    min_data: usize,
    k: int,
    m: int,
)
    requires
        max_bin <= 0x10000,
        values.len() <= usize::MAX,
        0 <= k < runs(ascending(finite_of(values))).0.len(),
        told_apart(runs(ascending(finite_of(values))).0),
        ({
            let cuts = column_cuts(values, max_bin, min_data);
            &&& 0 <= m <= cuts.len()
            &&& m > 0 ==> cuts[m - 1] < k
            &&& m < cuts.len() ==> k <= cuts[m]
        }),
    ensures
        numeric_binning(bounds_of(values, max_bin, min_data)).code_of(
            runs(ascending(finite_of(values))).0[k],
        ) == m + 1,
{
    let sorted = ascending(finite_of(values));
    let distinct = runs(sorted).0;
    let counts = runs(sorted).1;
    let budget = bin_budget(max_bin);
    let size = bin_size(sorted.len(), counts.len(), budget, min_data as nat);
    let cuts = column_cuts(values, max_bin, min_data);
    let bounds = bounds_of(values, max_bin, min_data);
    let v = distinct[k];
    lemma_numeric_valid(values, max_bin, min_data);
    lemma_finite_of(values);
    lemma_ascending(finite_of(values));
    lemma_runs_ascend(sorted);
    lemma_runs(sorted);
    lemma_cuts(counts, size, budget, min_data as nat);
    assert(distinct[k].finite());
    v.finite_compares();
    assert forall|i: int| 0 <= i < m implies lt(#[trigger] bounds[i], v) by {
        let c = cuts[i] as int;
        if i < m - 1 {
            assert(cuts[i] < cuts[m - 1]);
        }
        assert(cuts[i] < counts.len() - 1);
        assert(distinct[c].finite() && distinct[c + 1].finite());
        assert(apart_at(distinct, c));
        assert(le(distinct[c + 1], distinct[k]));
    }
    assert forall|i: int| m <= i < bounds.len() implies !lt(#[trigger] bounds[i], v) by {
        let c = cuts[i] as int;
        if m < i {
            assert(cuts[m] < cuts[i]);
        }
        assert(cuts[i] < counts.len() - 1);
        assert(apart_at(distinct, c));
        assert(le(distinct[k], distinct[c]));
    }
    lemma_filter_prefix(bounds, v, m as nat);
}

/// The first of the runs in the `m`-th bin.
pub open spec fn bin_start(cuts: Seq<nat>, m: int) -> nat {
    if m == 0 {
        0
    } else {
        cuts[m - 1] + 1
    }
}

/// How many values the bin that the `m`-th cut closes holds.
spec fn cut_off(counts: Seq<nat>, cuts: Seq<nat>, m: int) -> int {
    held(counts, cuts[m] + 1) - held(counts, bin_start(cuts, m))
}

proof fn lemma_greedy_fills(counts: Seq<nat>, size: nat, bins: nat, n: nat)
    ensures
        ({
            let (cuts, open) = greedy_cuts(counts, size, bins, n);
            &&& open + held(counts, bin_start(cuts, cuts.len() as int)) == held(counts, n)
            &&& forall|m: int|
                0 <= m < cuts.len() ==> #[trigger] cut_off(counts, cuts, m) >= size
        }),
    decreases n,
{
    if n > 0 {
        lemma_greedy_fills(counts, size, bins, (n - 1) as nat);
        let before = greedy_cuts(counts, size, bins, (n - 1) as nat).0;
        let after = greedy_cuts(counts, size, bins, n).0;
        assert forall|m: int| 0 <= m < after.len() implies #[trigger] cut_off(
            counts,
            after,
            m,
        ) >= size by {
            if m < before.len() {
                assert(cut_off(counts, before, m) >= size);
            } else {
                assert(bin_start(after, m) == bin_start(before, before.len() as int));
            }
        }
    }
}

/// Once a column is cut at all, every bin holds at least `min_data` of its
/// values: what is fewer is merged into a neighbour. The `m`-th bin holds the runs
/// between two cuts.
pub proof fn law_bins_hold_enough<W: Wide>(
    values: Seq<W>,
    max_bin: usize,
    min_data: usize,
    m: int,
)
    requires
        column_cuts(values, max_bin, min_data).len() > 0,
        0 <= m <= column_cuts(values, max_bin, min_data).len(),
    ensures
        ({
            let counts = runs(ascending(finite_of(values))).1;
            let cuts = column_cuts(values, max_bin, min_data);
            let end = if m < cuts.len() {
                cuts[m] + 1
            } else {
                counts.len()
            };
            held(counts, end) >= held(counts, bin_start(cuts, m)) + min_data
        }),
{
    let sorted = ascending(finite_of(values));
    let counts = runs(sorted).1;
    let budget = bin_budget(max_bin);
    let size = bin_size(sorted.len(), counts.len(), budget, min_data as nat);
    let cuts = column_cuts(values, max_bin, min_data);
    let n = (counts.len() - 1) as nat;
    lemma_runs(sorted);
    lemma_greedy_fills(counts, size, budget, n);
    let (all, open) = greedy_cuts(counts, size, budget, n);
    if m < cuts.len() {
        assert(cut_off(counts, all, m) >= size);
    } else {
        assert(held(counts, counts.len()) == held(counts, n) + counts.last());
        if cuts.len() < all.len() {
            assert(cut_off(counts, all, m) >= size);
        }
    }
}

proof fn lemma_all_cut(counts: Seq<nat>, size: nat, bins: nat, n: nat)
    requires
        n <= counts.len(),
        n < bins,
        forall|k: int| 0 <= k < counts.len() ==> (#[trigger] counts[k]) >= size,
    ensures
        greedy_cuts(counts, size, bins, n) == (Seq::new(n, |i: int| i as nat), 0nat),
    decreases n,
{
    if n > 0 {
        lemma_all_cut(counts, size, bins, (n - 1) as nat);
        assert(counts[n - 1] >= size);
    }
    assert(greedy_cuts(counts, size, bins, n).0 =~= Seq::new(n, |i: int| i as nat));
}

/// With few enough distinct values, each of which occurs at least `min_data`
/// times, each has a bin of its own, as long as the point halfway between two
/// neighbours tells them apart.
pub proof fn law_own_bin<W: Wide>(values: Seq<W>, max_bin: usize, min_data: usize, i: int)
    requires
        max_bin <= 0x10000,
        values.len() <= usize::MAX,
        ({
            let (distinct, counts) = runs(ascending(finite_of(values)));
            &&& distinct.len() <= bin_budget(max_bin)
            &&& forall|k: int| 0 <= k < counts.len() ==> (#[trigger] counts[k]) >= min_data
            &&& told_apart(distinct)
            &&& 0 <= i < distinct.len()
        }),
    ensures
        numeric_binning(bounds_of(values, max_bin, min_data)).code_of(
            runs(ascending(finite_of(values))).0[i],
        ) == i + 1,
{
    let sorted = ascending(finite_of(values));
    let (distinct, counts) = runs(sorted);
    let size = at_least_one(min_data as nat);
    lemma_runs(sorted);
    assert forall|k: int| 0 <= k < counts.len() implies (#[trigger] counts[k]) >= size by {}
    lemma_all_cut(counts, size, bin_budget(max_bin), (counts.len() - 1) as nat);
    assert(counts[counts.len() - 1] >= size);
    law_bin_between_cuts(values, max_bin, min_data, i, i);
}

/// Entries with the same code are the same entry.
pub open spec fn codes_differ(categories: Seq<(u64, u16)>) -> bool {
    forall|i: int, j: int|
        #![trigger categories[i], categories[j]]
        0 <= i < j < categories.len() ==> categories[i].1 != categories[j].1
}

pub proof fn lemma_category_code(categories: Seq<(u64, u16)>, bits: u64) -> (k: int)
    requires
        category_code(categories, bits) != MISSING_BIN,
    ensures
        0 <= k < categories.len(),
        categories[k] == (bits, category_code(categories, bits)),
{
    category_at(categories, bits)
}

proof fn lemma_by_bits_codes(kept: Seq<(u64, u16)>)
    requires
        kept.len() <= usize::MAX,
        codes_differ(kept),
    ensures
        codes_differ(by_bits(kept)),
{
    let keys = Seq::new(kept.len(), |i: int| kept[i].0);
    lemma_order_of(keys);
    let order = order_of(keys);
    let sorted = by_bits(kept);
    assert forall|i: int, j: int|
        #![trigger sorted[i], sorted[j]]
        0 <= i < j < sorted.len() implies sorted[i].1 != sorted[j].1 by {
        assert(order[i] != order[j]);
        assert(order[i] < keys.len() && order[j] < keys.len());
        if order[i] < order[j] {
            assert(kept[order[i] as int].1 != kept[order[j] as int].1);
        } else {
            assert(kept[order[j] as int].1 != kept[order[i] as int].1);
        }
    }
}

/// Two values that have categories of their own share a bin only when they are
/// the same value.
pub proof fn law_categories_distinct<W: Wide>(values: Seq<W>, max_bin: usize, a: u64, b: u64)
    requires
        max_bin <= 0x10000,
        values.len() <= usize::MAX,
        ({
            let categories = categorical_binning(values, max_bin).categories;
            &&& category_code(categories, a) == category_code(categories, b)
            &&& category_code(categories, a) != MISSING_BIN
        }),
    ensures
        a == b,
{
    let t = tally(sorted_bits(bits_of(values)));
    let budget = bin_budget(max_bin);
    let kept = kept_categories(t, budget);
    let categories = categorical_binning(values, max_bin).categories;
    lemma_fitted(values, max_bin);
    assert(codes_differ(kept)) by {
        assert forall|i: int, j: int|
            #![trigger kept[i], kept[j]]
            0 <= i < j < kept.len() implies kept[i].1 != kept[j].1 by {
            assert(kept[i].1 == i + 1);
            assert(kept[j].1 == j + 1);
        }
    }
    lemma_by_bits_codes(kept);
    let i = lemma_category_code(categories, a);
    let j = lemma_category_code(categories, b);
    if i < j {
        assert(categories[i].1 != categories[j].1);
    } else if j < i {
        assert(categories[j].1 != categories[i].1);
    }
}

/// The facts about the tally of a column that the laws below share.
pub proof fn lemma_fitted<W: Wide>(values: Seq<W>, max_bin: usize)
    requires
        max_bin <= 0x10000,
        values.len() <= usize::MAX,
    ensures
        ({
            let sorted = sorted_bits(bits_of(values));
            let t = tally(sorted);
            let kept = kept_categories(t, bin_budget(max_bin));
            &&& t.len() <= usize::MAX
            &&& kept.len() <= usize::MAX
            &&& forall|i: int, j: int|
                #![trigger t[i], t[j]]
                0 <= i < j < t.len() ==> t[i].0 < t[j].0
            &&& forall|i: int| 0 <= i < kept.len() ==> (#[trigger] kept[i]).1 == i + 1
            &&& forall|i: int|
                0 <= i < kept.len() ==> kept.contains(#[trigger] by_bits(kept)[i])
            &&& forall|i: int|
                0 <= i < kept.len() ==> by_bits(kept).contains(#[trigger] kept[i])
            &&& by_bits(kept).len() == kept.len()
            &&& forall|x: u64|
                #![trigger bits_of(values).to_multiset().count(x)]
                bits_of(values).to_multiset().count(x) > 0 ==> exists|i: int|
                    0 <= i < t.len() && #[trigger] t[i] == (
                        x,
                        bits_of(values).to_multiset().count(x) as u64,
                    )
            &&& forall|i: int|
                0 <= i < t.len() ==> (#[trigger] t[i]).1 == bits_of(values).to_multiset().count(
                    t[i].0,
                )
            &&& bits_of(values).to_multiset().len() <= u64::MAX
        }),
{
    broadcast use vstd::seq_lib::group_to_multiset_ensures;

    let bits = bits_of(values);
    values.lemma_filter_len(|v: W| v.finite());
    lemma_sorted_bits(bits);
    let sorted = sorted_bits(bits);
    lemma_tally(sorted);
    let t = tally(sorted);
    lemma_kept(t, bin_budget(max_bin));
    let kept = kept_categories(t, bin_budget(max_bin));
    lemma_by_bits(kept);
    lemma_sorted_bits_multiset(bits);
    lemma_tally_counts(sorted);
    assert(bits.to_multiset().len() == bits.len());
    assert forall|x: u64|
        #![trigger bits.to_multiset().count(x)]
        bits.to_multiset().count(x) > 0 implies exists|i: int|
        0 <= i < t.len() && #[trigger] t[i] == (x, bits.to_multiset().count(x) as u64) by {
        assert(sorted.contains(x));
    }
}

pub proof fn lemma_mapped_multiset<A, B>(a: Seq<A>, b: Seq<A>, f: spec_fn(A) -> B)
    requires
        a.to_multiset() == b.to_multiset(),
    ensures
        a.map_values(f).to_multiset() == b.map_values(f).to_multiset(),
    decreases a.len(),
{
    broadcast use vstd::seq_lib::group_to_multiset_ensures;

    assert(a.len() == a.to_multiset().len());
    assert(b.len() == b.to_multiset().len());
    if a.len() == 0 {
        assert(a.map_values(f) =~= b.map_values(f));
    } else {
        let x = a.last();
        assert(a.to_multiset().count(x) > 0);
        assert(b.contains(x));
        let i = choose|i: int| 0 <= i < b.len() && b[i] == x;
        let a1 = a.drop_last();
        let b1 = b.remove(i);
        assert(a =~= a1.push(x));
        assert(a.to_multiset() =~= a1.to_multiset().insert(x));
        assert(b1.to_multiset() =~= b.to_multiset().remove(x));
        assert(a1.to_multiset() =~= b1.to_multiset());
        lemma_mapped_multiset(a1, b1, f);
        assert(a.map_values(f) =~= a1.map_values(f).push(f(x)));
        assert(b.map_values(f).remove(i) =~= b1.map_values(f));
        assert(b.map_values(f)[i] == f(x));
        let am = a.map_values(f).to_multiset();
        let bm = b.map_values(f).to_multiset();
        assert(am =~= a1.map_values(f).to_multiset().insert(f(x)));
        assert(b1.map_values(f).to_multiset() =~= bm.remove(f(x)));
        assert(b.map_values(f).contains(f(x)));
        assert(bm =~= bm.remove(f(x)).insert(f(x)));
    }
}

/// Sorting bit patterns keeps how often each occurs.
proof fn lemma_sorted_bits_multiset(bits: Seq<u64>)
    requires
        bits.len() <= usize::MAX,
    ensures
        sorted_bits(bits).to_multiset() == bits.to_multiset(),
{
    lemma_order_of(bits);
    let f = |p: usize| bits[p as int];
    let all = positions(0, bits.len() as int);
    lemma_mapped_multiset(order_of(bits), all, f);
    assert(order_of(bits).map_values(f) =~= sorted_bits(bits));
    assert(all.map_values(f) =~= bits);
}

/// The counts of a tally are the numbers of occurrences.
proof fn lemma_tally_counts(sorted: Seq<u64>)
    requires
        sorted.len() <= u64::MAX,
        forall|i: int, j: int|
            #![trigger sorted[i], sorted[j]]
            0 <= i <= j < sorted.len() ==> sorted[i] <= sorted[j],
    ensures
        forall|i: int|
            0 <= i < tally(sorted).len() ==> (#[trigger] tally(sorted)[i]).1
                == sorted.to_multiset().count(tally(sorted)[i].0),
        forall|x: u64|
            #![trigger sorted.contains(x)]
            sorted.contains(x) ==> exists|i: int|
                0 <= i < tally(sorted).len() && #[trigger] tally(sorted)[i] == (
                    x,
                    sorted.to_multiset().count(x) as u64,
                ),
    decreases sorted.len(),
{
    broadcast use vstd::seq_lib::group_to_multiset_ensures;

    if sorted.len() > 0 {
        let rest = sorted.drop_last();
        let last = sorted.last();
        lemma_tally_counts(rest);
        lemma_tally(rest);
        lemma_tally(sorted);
        let before = tally(rest);
        let after = tally(sorted);
        assert(sorted =~= rest.push(last));
        assert(sorted.to_multiset() =~= rest.to_multiset().insert(last));
        assert(rest.to_multiset().len() == rest.len());
        if before.len() > 0 && before.last().0 == last {
            assert(before[before.len() - 1].1 == rest.to_multiset().count(last));
            assert(before[before.len() - 1].1 <= rest.len());
        } else {
            if rest.contains(last) {
                let i = choose|i: int|
                    0 <= i < before.len() && #[trigger] before[i] == (
                        last,
                        rest.to_multiset().count(last) as u64,
                    );
                assert(before[before.len() - 1].0 == rest.last());
                assert(rest.last() == sorted[sorted.len() - 2]);
                if i < before.len() - 1 {
                    assert(before[i].0 < before[before.len() - 1].0);
                    assert(sorted[sorted.len() - 2] <= sorted[sorted.len() - 1]);
                }
            }
            assert(rest.to_multiset().count(last) == 0);
        }
        assert forall|i: int| 0 <= i < after.len() implies (#[trigger] after[i]).1
            == sorted.to_multiset().count(after[i].0) by {
            if i < before.len() {
                assert(before[i].1 == rest.to_multiset().count(before[i].0));
                if i < before.len() - 1 || after.len() > before.len() {
                    assert(after[i] == before[i]);
                    assert(before[i].0 != last) by {
                        if after.len() > before.len() {
                            assert(after[i].0 < after[after.len() - 1].0);
                        } else {
                            assert(before[i].0 < before[before.len() - 1].0);
                        }
                    }
                }
            }
        }
        assert forall|x: u64| #![trigger sorted.contains(x)] sorted.contains(x) implies exists|
            i: int,
        |
            0 <= i < after.len() && #[trigger] after[i] == (
                x,
                sorted.to_multiset().count(x) as u64,
            ) by {
            if x == last {
                assert(after[after.len() - 1].0 == last);
                assert(after[after.len() - 1].1 == sorted.to_multiset().count(last));
            } else {
                let k = choose|k: int| 0 <= k < sorted.len() && sorted[k] == x;
                assert(rest[k] == x);
                assert(rest.contains(x));
                let i = choose|i: int|
                    0 <= i < before.len() && #[trigger] before[i] == (
                        x,
                        rest.to_multiset().count(x) as u64,
                    );
                assert(after[i] == before[i]);
            }
        }
    }
}

/// A value that does not occur in the column is missing.
pub proof fn law_unseen_category<W: Wide>(values: Seq<W>, max_bin: usize, v: W)
    requires
        max_bin <= 0x10000,
        values.len() <= usize::MAX,
        !bits_of(values).contains(v.bits_of()),
    ensures
        categorical_binning(values, max_bin).code_of(v) == MISSING_BIN,
{
    broadcast use vstd::seq_lib::group_to_multiset_ensures;

    let bits = v.bits_of();
    let t = tally(sorted_bits(bits_of(values)));
    let kept = kept_categories(t, bin_budget(max_bin));
    let binning = categorical_binning(values, max_bin);
    lemma_fitted(values, max_bin);
    lemma_sorted_bits(bits_of(values));
    lemma_tally(sorted_bits(bits_of(values)));
    if category_code(binning.categories, bits) != MISSING_BIN {
        let i = lemma_category_code(binning.categories, bits);
        lemma_kept_counted(t, bin_budget(max_bin), by_bits(kept)[i]);
        let j = choose|j: int| 0 <= j < t.len() && (#[trigger] t[j]).0 == bits;
        assert(t[j].1 == bits_of(values).to_multiset().count(bits));
    }
}

/// A kept category comes from the tally.
proof fn lemma_kept_counted(t: Seq<(u64, u64)>, budget: nat, entry: (u64, u16))
    requires
        t.len() <= usize::MAX,
        kept_categories(t, budget).contains(entry),
    ensures
        exists|j: int| 0 <= j < t.len() && (#[trigger] t[j]).0 == entry.0,
{
    let keys = Seq::new(t.len(), |i: int| (u64::MAX - t[i].1) as u64);
    lemma_order_of(keys);
    let kept = kept_categories(t, budget);
    let i = choose|i: int| 0 <= i < kept.len() && kept[i] == entry;
    let j = by_frequency(t)[i] as int;
    assert(by_frequency(t)[i] < keys.len());
    assert(t[j].0 == entry.0);
}

/// A value with a category of its own is at least as frequent as any value of
/// the column without one. So with room for all, every value of the column has
/// its own category.
pub proof fn law_most_frequent_kept<W: Wide>(values: Seq<W>, max_bin: usize, a: u64, b: u64)
    requires
        max_bin <= 0x10000,
        values.len() <= usize::MAX,
        bits_of(values).contains(b),
        category_code(categorical_binning(values, max_bin).categories, b) == MISSING_BIN,
    ensures
        tally(sorted_bits(bits_of(values))).len() > bin_budget(max_bin),
        category_code(categorical_binning(values, max_bin).categories, a) != MISSING_BIN
            ==> bits_of(values).to_multiset().count(a) >= bits_of(values).to_multiset().count(b),
{
    broadcast use vstd::seq_lib::group_to_multiset_ensures;

    let bits = bits_of(values);
    let t = tally(sorted_bits(bits));
    let budget = bin_budget(max_bin);
    let kept = kept_categories(t, budget);
    let categories = categorical_binning(values, max_bin).categories;
    let keys = Seq::new(t.len(), |i: int| (u64::MAX - t[i].1) as u64);
    let order = by_frequency(t);
    lemma_fitted(values, max_bin);
    lemma_order_of(keys);
    assert(bits.to_multiset().count(b) > 0);
    let j = choose|j: int|
        0 <= j < t.len() && #[trigger] t[j] == (b, bits.to_multiset().count(b) as u64);
    assert(order.contains(j as usize));
    let at = choose|at: int| 0 <= at < order.len() && order[at] == j as usize;
    if at < kept.len() {
        assert(kept[at].0 == b);
        assert(by_bits(kept).contains(kept[at]));
        let k = choose|k: int| 0 <= k < by_bits(kept).len() && by_bits(kept)[k] == kept[at];
        assert(categories[k].0 == b);
        let m = category_at(categories, b);
        assert(kept.contains(by_bits(kept)[m]));
        let n = choose|n: int| 0 <= n < kept.len() && kept[n] == by_bits(kept)[m];
        assert(kept[n].1 == n + 1);
        assert(false);
    }
    assert(t.len() > budget);
    if category_code(categories, a) != MISSING_BIN {
        let i = lemma_category_code(categories, a);
        assert(kept.contains(by_bits(kept)[i]));
        let n = choose|n: int| 0 <= n < kept.len() && kept[n] == by_bits(kept)[i];
        let p = order[n] as int;
        assert(order[n] < keys.len());
        assert(t[p].0 == a);
        assert(t[p].1 == bits.to_multiset().count(a));
        assert(by_key(keys)(order[n], order[at]));
        assert(keys[p] <= keys[j]);
        assert(t[j].1 == bits.to_multiset().count(t[j].0));
    }
}

// Only the finite values of a column count, in any order.

/// Two lists hold the same numbers at the same places.
pub open spec fn same_numbers<W: Wide>(a: Seq<W>, b: Seq<W>) -> bool {
    &&& a.len() == b.len()
    &&& forall|i: int| #![trigger a[i]] #![trigger b[i]] 0 <= i < a.len() ==> eq(a[i], b[i])
}

/// Lists of the same finite numbers are the same in ascending order.
proof fn lemma_same_ascending<W: Wide>(a: Seq<W>, b: Seq<W>)
    requires
        all_finite(a),
        all_finite(b),
        a.len() <= usize::MAX,
        b.len() <= usize::MAX,
        a.to_multiset() == b.to_multiset(),
    ensures
        same_numbers(ascending(a), ascending(b)),
{
    broadcast use vstd::seq_lib::group_to_multiset_ensures;

    let key = |v: W| ascending_key(v.rank_of());
    let x = rank_keys(a);
    let y = rank_keys(b);
    assert(a.len() == a.to_multiset().len());
    assert(b.len() == b.to_multiset().len());
    lemma_mapped_multiset(a, b, key);
    assert(a.map_values(key) =~= x);
    assert(b.map_values(key) =~= y);
    lemma_sorted_bits(x);
    lemma_sorted_bits(y);
    lemma_sorted_bits_multiset(x);
    lemma_sorted_bits_multiset(y);
    let leq = |i: u64, j: u64| i <= j;
    lemma_sorted_unique(sorted_bits(x), sorted_bits(y), leq);
    lemma_ascending(a);
    lemma_ascending(b);
    lemma_order_of(x);
    lemma_order_of(y);
    assert forall|i: int| 0 <= i < a.len() implies eq(
        #[trigger] ascending(a)[i],
        ascending(b)[i],
    ) by {
        let v = ascending(a)[i];
        let w = ascending(b)[i];
        assert(v.finite() && w.finite());
        v.finite_compares();
        w.finite_compares();
        assert(order_of(x)[i] < x.len());
        assert(order_of(y)[i] < y.len());
        assert(key(v) == sorted_bits(x)[i]);
        assert(key(w) == sorted_bits(y)[i]);
    }
}

proof fn lemma_same_runs<W: Wide>(a: Seq<W>, b: Seq<W>)
    requires
        same_numbers(a, b),
    ensures
        same_numbers(runs(a).0, runs(b).0),
        runs(a).1 == runs(b).1,
        a.len() > 0 ==> runs(a).0.len() > 0,
    decreases a.len(),
{
    if a.len() > 0 {
        let x = a.drop_last();
        let y = b.drop_last();
        assert forall|i: int| 0 <= i < x.len() implies eq(#[trigger] x[i], y[i]) by {
            assert(eq(a[i], b[i]));
        }
        lemma_same_runs(x, y);
        lemma_runs(x);
        lemma_runs(y);
        assert(eq(a[a.len() - 1], b[a.len() - 1]));
        if x.len() > 0 {
            let m = runs(x).0.len() - 1;
            assert(eq(runs(x).0[m], runs(y).0[m]));
        }
        assert forall|i: int| 0 <= i < runs(a).0.len() implies eq(
            #[trigger] runs(a).0[i],
            runs(b).0[i],
        ) by {
            if i < runs(x).0.len() {
                assert(eq(runs(x).0[i], runs(y).0[i]));
            }
        }
    }
}

proof fn lemma_same_bounds_below<W: Wide>(a: Seq<W>, b: Seq<W>, v: W)
    requires
        same_numbers(a, b),
    ensures
        bounds_below(a, v) == bounds_below(b, v),
    decreases a.len(),
{
    reveal(Seq::filter);
    if a.len() > 0 {
        let x = a.drop_last();
        let y = b.drop_last();
        assert forall|i: int| 0 <= i < x.len() implies eq(#[trigger] x[i], y[i]) by {
            assert(eq(a[i], b[i]));
        }
        lemma_same_bounds_below(x, y, v);
        assert(eq(a[a.len() - 1], b[a.len() - 1]));
    }
}

/// The bounds that a column is binned by depend only on its finite values and how
/// often each occurs: neither their order nor what is missing counts. So the
/// codes of all values are the same, too.
pub proof fn law_fit_by_finite_values<W: Wide>(
    values: Seq<W>,
    others: Seq<W>,
    max_bin: usize,
    min_data: usize,
    v: W,
)
    requires
        values.len() <= usize::MAX,
        others.len() <= usize::MAX,
        finite_of(values).to_multiset() == finite_of(others).to_multiset(),
    ensures
        same_numbers(
            bounds_of(values, max_bin, min_data),
            bounds_of(others, max_bin, min_data),
        ),
        numeric_binning(bounds_of(values, max_bin, min_data)).code_of(v) == numeric_binning(
            bounds_of(others, max_bin, min_data),
        ).code_of(v),
{
    let a = ascending(finite_of(values));
    let b = ascending(finite_of(others));
    lemma_finite_of(values);
    lemma_finite_of(others);
    lemma_ascending(finite_of(values));
    lemma_ascending(finite_of(others));
    lemma_same_ascending(finite_of(values), finite_of(others));
    lemma_same_runs(a, b);
    lemma_runs_ascend(a);
    lemma_runs_ascend(b);
    let x = runs(a).0;
    let y = runs(b).0;
    let cuts = column_cuts(values, max_bin, min_data);
    let p = bounds_of(values, max_bin, min_data);
    let q = bounds_of(others, max_bin, min_data);
    lemma_runs(a);
    lemma_runs(b);
    assert(cuts == column_cuts(others, max_bin, min_data));
    if a.len() > 0 {
        let budget = bin_budget(max_bin);
        let size = bin_size(a.len(), runs(a).1.len(), budget, min_data as nat);
        lemma_cuts(runs(a).1, size, budget, min_data as nat);
    }
    assert forall|i: int| 0 <= i < p.len() implies eq(#[trigger] p[i], q[i]) by {
        let c = cuts[i] as int;
        assert(cuts[i] < x.len() - 1);
        assert(x[c].finite() && x[c + 1].finite() && y[c].finite() && y[c + 1].finite());
        assert(eq(x[c], y[c]) && eq(x[c + 1], y[c + 1]));
        W::midpoints_ascend(x[c], x[c + 1], y[c], y[c + 1]);
        W::midpoints_ascend(y[c], y[c + 1], x[c], x[c + 1]);
    }
    lemma_same_bounds_below(p, q, v);
}

} // verus!
