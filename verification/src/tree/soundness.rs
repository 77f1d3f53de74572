//! What stays true while a tree grows.

use vstd::prelude::*;

use crate::config::Rules;
use crate::number::{le, lt, Wide};
use crate::order::{lemma_order_of, order_of, ascending_key, positions};
use crate::tree::bitset::lemma_bitset_of;
use crate::tree::growth::{pick, Growth, Leaf, Stage};
use crate::tree::histogram::{
    codes_below, counts_rows, difference, hist_of, lemma_hist_counts, lemma_rows_in_bin_bound,
    lemma_rows_in_bin_split, rows_in_bin,
};
use crate::tree::split::{group_minimum, Query, Split, Sums};
use crate::tree::{goes_left, lemma_walk_in_range, taken_child, walk, MissingDir, SplitNode};

verus! {

// Rows on either side of a split.

/// Filtering by a predicate and by its negation keeps every row once.
pub proof fn lemma_filter_halves(rows: Seq<u32>, left: spec_fn(u32) -> bool)
    ensures
        rows.filter(left).len() + rows.filter(|r: u32| !left(r)).len() == rows.len(),
        forall|x: u32| rows.filter(left).contains(x) <==> rows.contains(x) && left(x),
    decreases rows.len(),
{
    let right = |r: u32| !left(r);
    reveal(Seq::filter);
    if rows.len() > 0 {
        let init = rows.drop_last();
        let last = rows.last();
        lemma_filter_halves(init, left);
        assert forall|x: u32| rows.filter(left).contains(x) <==> rows.contains(x) && left(x) by {
            lemma_contains_push(init, last, x);
            lemma_contains_push(init.filter(left), last, x);
            assert(rows =~= init.push(last));
        }
    }
}

proof fn lemma_contains_push(s: Seq<u32>, last: u32, x: u32)
    ensures
        s.push(last).contains(x) <==> s.contains(x) || x == last,
{
    if s.contains(x) {
        let i = choose|i: int| 0 <= i < s.len() && s[i] == x;
        assert(s.push(last)[i] == x);
    }
    assert(s.push(last)[s.len() as int] == last);
    if s.push(last).contains(x) && x != last {
        let i = choose|i: int| 0 <= i < s.push(last).len() && s.push(last)[i] == x;
        assert(s[i] == x);
    }
}

/// Adding the rows of one bin to a group adds the count of that bin.
proof fn lemma_filter_add_bin(
    codes: Seq<u16>,
    rows: Seq<u32>,
    before: spec_fn(u32) -> bool,
    after: spec_fn(u32) -> bool,
    b: int,
)
    requires
        forall|r: u32|
            #![trigger after(r)]
            rows.contains(r) ==> (after(r) <==> before(r) || codes[r as int] == b),
        forall|r: u32|
            #![trigger before(r)]
            rows.contains(r) ==> !(before(r) && codes[r as int] == b),
    ensures
        rows.filter(after).len() == rows.filter(before).len() + rows_in_bin(codes, rows, b),
    decreases rows.len(),
{
    reveal(Seq::filter);
    if rows.len() > 0 {
        let init = rows.drop_last();
        let last = rows.last();
        assert forall|r: u32| init.contains(r) implies rows.contains(r) by {
            let i = choose|i: int| 0 <= i < init.len() && init[i] == r;
            assert(rows[i] == r);
        }
        assert(rows[rows.len() - 1] == last);
        assert(rows.contains(last));
        assert(after(last) <==> before(last) || codes[last as int] == b);
        assert(!(before(last) && codes[last as int] == b));
        lemma_filter_add_bin(codes, init, before, after, b);
    }
}

/// A group with no rows.
proof fn lemma_filter_none(rows: Seq<u32>, p: spec_fn(u32) -> bool)
    requires
        forall|r: u32| #![trigger p(r)] rows.contains(r) ==> !p(r),
    ensures
        rows.filter(p).len() == 0,
{
    lemma_filter_halves(rows, p);
    if rows.filter(p).len() > 0 {
        let x = rows.filter(p)[0];
        assert(rows.filter(p).contains(x));
        assert(p(x));
    }
}

/// Filtering by predicates that agree on the rows gives the same rows.
pub proof fn lemma_filter_same(
    rows: Seq<u32>,
    p: spec_fn(u32) -> bool,
    q: spec_fn(u32) -> bool,
)
    requires
        forall|r: u32| rows.contains(r) ==> (#[trigger] p(r) <==> q(r)),
    ensures
        rows.filter(p) == rows.filter(q),
    decreases rows.len(),
{
    reveal(Seq::filter);
    if rows.len() > 0 {
        let init = rows.drop_last();
        assert forall|r: u32| init.contains(r) implies rows.contains(r) by {
            let i = choose|i: int| 0 <= i < init.len() && init[i] == r;
            assert(rows[i] == r);
        }
        assert(rows[rows.len() - 1] == rows.last());
        assert(rows.contains(rows.last()));
        assert(p(rows.last()) <==> q(rows.last()));
        lemma_filter_same(init, p, q);
    }
}

impl<W: Wide> Split<W> {
    /// The counts that the split carries are the numbers of rows that it sends
    /// left and right.
    pub open spec fn counts_match(self, codes: Seq<u16>, rows: Seq<u32>) -> bool {
        &&& self.left_count == self.left_rows(codes, rows).len()
        &&& self.right_count == self.right_rows(codes, rows).len()
    }

    /// Both sides are large enough, and the gain exceeds the minimum.
    pub open spec fn within_limits(self, rules: Rules<W>) -> bool {
        &&& self.left_count >= rules.min_data_in_leaf
        &&& self.right_count >= rules.min_data_in_leaf
        &&& !lt(self.left_sum_hess, rules.min_sum_hessian_in_leaf)
        &&& !lt(self.right_sum_hess, rules.min_sum_hessian_in_leaf)
        &&& !le(self.gain, rules.min_gain_to_split)
    }
}

impl<W: Wide> Query<W> {
    /// The histogram and the totals of the query count `rows`.
    pub open spec fn describes(self, codes: Seq<u16>, rows: Seq<u32>) -> bool {
        &&& self.hist.len() <= 0x10000
        &&& rows.len() <= u32::MAX
        &&& self.parent.count == rows.len()
        &&& counts_rows(self.hist, codes, rows)
        &&& forall|k: int| 0 <= k < rows.len() ==> codes[(#[trigger] rows[k]) as int] < self.hist.len()
    }

    /// A split of this query counts its rows right and keeps the limits.
    pub open spec fn fits(self, split: Split<W>, codes: Seq<u16>, rows: Seq<u32>) -> bool {
        split.counts_match(codes, rows) && split.within_limits(self.rules)
    }

    proof fn lemma_left_of_counts(
        self,
        codes: Seq<u16>,
        rows: Seq<u32>,
        dir: MissingDir,
        t: nat,
    )
        requires
            self.describes(codes, rows),
            t < self.hist.len(),
        ensures
            self.left_of(dir, t).count == rows.filter(
                |r: u32|
                    if codes[r as int] == 0 {
                        dir == MissingDir::Left
                    } else {
                        codes[r as int] <= t
                    },
            ).len(),
        decreases t,
    {
        let after = |r: u32|
            if codes[r as int] == 0 {
                dir == MissingDir::Left
            } else {
                codes[r as int] <= t
            };
        lemma_filter_halves(rows, after);
        if t == 0 {
            if dir == MissingDir::Left {
                let none = |r: u32| false;
                lemma_filter_none(rows, none);
                lemma_filter_add_bin(codes, rows, none, after, 0);
                assert(self.hist[0].count == rows_in_bin(codes, rows, 0));
            } else {
                lemma_filter_none(rows, after);
            }
        } else {
            self.lemma_left_of_counts(codes, rows, dir, (t - 1) as nat);
            let before = |r: u32|
                if codes[r as int] == 0 {
                    dir == MissingDir::Left
                } else {
                    codes[r as int] <= t - 1
                };
            lemma_filter_same(
                rows,
                before,
                |r: u32|
                    if codes[r as int] == 0 {
                        dir == MissingDir::Left
                    } else {
                        codes[r as int] <= (t - 1) as nat
                    },
            );
            lemma_filter_add_bin(codes, rows, before, after, t as int);
            assert(self.hist[t as int].count == rows_in_bin(codes, rows, t as int));
        }
    }

    proof fn lemma_numeric_candidate(
        self,
        bounds: Seq<W>,
        codes: Seq<u16>,
        rows: Seq<u32>,
        dir: MissingDir,
        t: nat,
    )
        requires
            self.describes(codes, rows),
            t < self.hist.len() - 1,
        ensures
            self.numeric_candidate(bounds, dir, t) matches Some(s) ==> self.fits(s, codes, rows)
                && s.feature == self.feature && s.cat_left_bins is None,
    {
        self.lemma_left_of_counts(codes, rows, dir, t);
        match self.numeric_candidate(bounds, dir, t) {
            None => {},
            Some(s) => {
                let by_code = |r: u32|
                    if codes[r as int] == 0 {
                        dir == MissingDir::Left
                    } else {
                        codes[r as int] <= t
                    };
                let left = |r: u32| s.left(codes[r as int]);
                assert(s.threshold_bin == t);
                lemma_filter_same(rows, left, by_code);
                lemma_filter_halves(rows, left);
                lemma_filter_same(
                    rows,
                    |r: u32| !left(r),
                    |r: u32| !s.left(codes[r as int]),
                );
            },
        }
    }

    proof fn lemma_scan(
        self,
        bounds: Seq<W>,
        codes: Seq<u16>,
        rows: Seq<u32>,
        dir: MissingDir,
        upto: nat,
        start: Option<Split<W>>,
    )
        requires
            self.describes(codes, rows),
            upto < self.hist.len(),
            start matches Some(s) ==> self.fits(s, codes, rows) && s.feature == self.feature
                && s.cat_left_bins is None,
        ensures
            self.scan(bounds, dir, upto, start) matches Some(s) ==> self.fits(s, codes, rows)
                && s.feature == self.feature && s.cat_left_bins is None,
        decreases upto,
    {
        if upto > 1 {
            self.lemma_scan(bounds, codes, rows, dir, (upto - 1) as nat, start);
            self.lemma_numeric_candidate(bounds, codes, rows, dir, (upto - 1) as nat);
        }
    }

    /// The counts of a numeric split are the sizes of the two groups of rows
    /// that it makes.
    pub proof fn lemma_best_numeric_counts(
        self,
        bounds: Seq<W>,
        codes: Seq<u16>,
        rows: Seq<u32>,
    )
        requires
            self.describes(codes, rows),
        ensures
            self.best_numeric(bounds) matches Some(s) ==> self.fits(s, codes, rows) && s.feature
                == self.feature && s.cat_left_bins is None,
    {
        if self.hist.len() > 2 {
            let n = (self.hist.len() - 1) as nat;
            self.lemma_scan(bounds, codes, rows, MissingDir::Left, n, None);
            let from_left = self.scan(bounds, MissingDir::Left, n, None);
            self.lemma_scan(bounds, codes, rows, MissingDir::Right, n, from_left);
        }
    }

    /// A list of different bins of this histogram.
    pub open spec fn distinct_bins(self, bins: Seq<usize>) -> bool {
        &&& bins.no_duplicates()
        &&& forall|i: int| 0 <= i < bins.len() ==> (#[trigger] bins[i]) < self.hist.len()
    }

    proof fn lemma_together_counts(self, codes: Seq<u16>, rows: Seq<u32>, bins: Seq<usize>)
        requires
            self.describes(codes, rows),
            self.distinct_bins(bins),
        ensures
            self.together(bins).count == rows.filter(
                |r: u32| bins.contains(codes[r as int] as usize),
            ).len(),
        decreases bins.len(),
    {
        let after = |r: u32| bins.contains(codes[r as int] as usize);
        lemma_filter_halves(rows, after);
        if bins.len() == 0 {
            lemma_filter_none(rows, after);
        } else {
            let init = bins.drop_last();
            let b = bins.last();
            assert(bins[bins.len() - 1] == b);
            let before = |r: u32| init.contains(codes[r as int] as usize);
            assert(self.distinct_bins(init)) by {
                assert forall|i: int| 0 <= i < init.len() implies (#[trigger] init[i])
                    < self.hist.len() by {
                    assert(bins[i] == init[i]);
                }
            }
            self.lemma_together_counts(codes, rows, init);
            assert forall|r: u32|
                #![trigger after(r)]
                rows.contains(r) implies (after(r) <==> before(r) || codes[r as int] == b) by {
                let c = codes[r as int] as usize;
                if after(r) && c != b {
                    let i = choose|i: int| 0 <= i < bins.len() && bins[i] == c;
                    assert(init[i] == c);
                }
                if before(r) {
                    let i = choose|i: int| 0 <= i < init.len() && init[i] == c;
                    assert(bins[i] == c);
                }
            }
            assert forall|r: u32| #![trigger before(r)] rows.contains(r) implies !(before(r)
                && codes[r as int] == b) by {
                if before(r) && codes[r as int] == b {
                    let i = choose|i: int| 0 <= i < init.len() && init[i] == b;
                    assert(bins[i] == b && bins[bins.len() - 1] == b);
                }
            }
            lemma_filter_add_bin(codes, rows, before, after, b as int);
            assert(self.hist[b as int].count == rows_in_bin(codes, rows, b as int));
            lemma_rows_in_bin_bound(codes, rows, b as int);
        }
    }

    proof fn lemma_subset_candidate(
        self,
        codes: Seq<u16>,
        rows: Seq<u32>,
        bins: Seq<usize>,
        left: Sums<W>,
    )
        requires
            self.describes(codes, rows),
            self.distinct_bins(bins),
            left.count == self.together(bins).count,
        ensures
            self.subset_candidate(bins, left) matches Some(s) ==> self.fits(s, codes, rows)
                && s.feature == self.feature && s.cat_left_bins is Some,
    {
        self.lemma_together_counts(codes, rows, bins);
        match self.subset_candidate(bins, left) {
            None => {},
            Some(s) => {
                let by_code = |r: u32| bins.contains(codes[r as int] as usize);
                let goes = |r: u32| s.left(codes[r as int]);
                let narrow = bins.map_values(|b: usize| b as u16);
                assert forall|r: u32| rows.contains(r) implies (#[trigger] goes(r) <==> by_code(
                    r,
                )) by {
                    let c = codes[r as int];
                    lemma_bitset_of(narrow, c);
                    if narrow.contains(c) {
                        let i = choose|i: int| 0 <= i < narrow.len() && narrow[i] == c;
                        assert(bins[i] < self.hist.len());
                        assert(bins[i] as u16 == c);
                        assert(bins[i] == c as usize);
                    }
                    if bins.contains(c as usize) {
                        let i = choose|i: int| 0 <= i < bins.len() && bins[i] == c as usize;
                        assert(narrow[i] == c);
                    }
                }
                lemma_filter_same(rows, goes, by_code);
                lemma_filter_halves(rows, goes);
                lemma_filter_same(
                    rows,
                    |r: u32| !goes(r),
                    |r: u32| !s.left(codes[r as int]),
                );
            },
        }
    }

    proof fn lemma_best_alone(self, codes: Seq<u16>, rows: Seq<u32>, bins: Seq<usize>, n: nat)
        requires
            self.describes(codes, rows),
            self.distinct_bins(bins),
            n <= bins.len(),
        ensures
            self.best_alone(bins, n) matches Some(s) ==> self.fits(s, codes, rows) && s.feature
                == self.feature && s.cat_left_bins is Some,
        decreases n,
    {
        if n > 0 {
            self.lemma_best_alone(codes, rows, bins, (n - 1) as nat);
            let b = bins[n - 1];
            let single = seq![b];
            assert(single.drop_last() =~= Seq::<usize>::empty());
            reveal_with_fuel(Query::together, 2);
            assert(self.together(single).count == self.alone(b).count);
            self.lemma_subset_candidate(codes, rows, single, self.alone(b));
        }
    }

    proof fn lemma_best_prefix(
        self,
        codes: Seq<u16>,
        rows: Seq<u32>,
        bins: Seq<usize>,
        n: nat,
        start: Option<Split<W>>,
    )
        requires
            self.describes(codes, rows),
            self.distinct_bins(bins),
            n <= bins.len(),
            start matches Some(s) ==> self.fits(s, codes, rows) && s.feature == self.feature
                && s.cat_left_bins is Some,
        ensures
            self.best_prefix(bins, n, start) matches Some(s) ==> self.fits(s, codes, rows)
                && s.feature == self.feature && s.cat_left_bins is Some,
        decreases n,
    {
        if n > 0 {
            self.lemma_best_prefix(codes, rows, bins, (n - 1) as nat, start);
            let group = bins.take(n as int);
            assert(self.distinct_bins(group)) by {
                assert forall|i: int| 0 <= i < group.len() implies (#[trigger] group[i])
                    < self.hist.len() by {
                    assert(bins[i] == group[i]);
                }
            }
            self.lemma_subset_candidate(codes, rows, group, self.together(group));
        }
    }

    proof fn lemma_used_distinct(self, n: int)
        requires
            0 <= n <= self.hist.len() <= 0x10000,
        ensures
            ({
                let used = positions(0, n).filter(
                    |b: usize| self.hist[b as int].count >= group_minimum(self.rules),
                );
                &&& used.no_duplicates()
                &&& forall|i: int| 0 <= i < used.len() ==> (#[trigger] used[i]) < n
            }),
        decreases n,
    {
        reveal(Seq::filter);
        let enough = |b: usize| self.hist[b as int].count >= group_minimum(self.rules);
        if n == 0 {
            assert(positions(0, 0).filter(enough) =~= Seq::<usize>::empty());
        } else {
            self.lemma_used_distinct(n - 1);
            assert(positions(0, n).drop_last() =~= positions(0, n - 1));
            let before = positions(0, n - 1).filter(enough);
            assert forall|i: int| 0 <= i < before.len() implies (#[trigger] before[i]) < n - 1 by {}
        }
    }

    proof fn lemma_ranked_distinct(self, bins: Seq<usize>)
        requires
            self.distinct_bins(bins),
            bins.len() <= usize::MAX,
        ensures
            self.distinct_bins(self.ranked(bins)),
            self.distinct_bins(self.ranked(bins).reverse()),
    {
        let keys = Seq::new(bins.len(), |i: int| ascending_key(self.ratio(bins[i]).rank_of()));
        lemma_order_of(keys);
        let order = order_of(keys);
        let ranked = self.ranked(bins);
        assert forall|i: int, j: int| 0 <= i < j < ranked.len() implies ranked[i] != ranked[j] by {
            assert(order[i] != order[j]);
            assert(order[i] < bins.len() && order[j] < bins.len());
        }
        assert forall|i: int| 0 <= i < ranked.len() implies (#[trigger] ranked[i])
            < self.hist.len() by {
            assert(order[i] < bins.len());
            assert(bins[order[i] as int] < self.hist.len());
        }
        let back = ranked.reverse();
        assert forall|i: int| 0 <= i < back.len() implies (#[trigger] back[i]) < self.hist.len() by {
            assert(ranked[ranked.len() - 1 - i] < self.hist.len());
        }
        assert forall|i: int, j: int| 0 <= i < j < back.len() implies back[i] != back[j] by {
            assert(ranked[ranked.len() - 1 - j] != ranked[ranked.len() - 1 - i]);
        }
    }

    /// The counts of a categorical split are the sizes of the two groups of rows
    /// that it makes.
    pub proof fn lemma_best_subset_counts(self, codes: Seq<u16>, rows: Seq<u32>)
        requires
            self.describes(codes, rows),
        ensures
            self.best_subset() matches Some(s) ==> self.fits(s, codes, rows) && s.feature
                == self.feature && s.cat_left_bins is Some,
    {
        let used = self.used();
        self.lemma_used_distinct(self.hist.len() as int);
        assert(self.distinct_bins(used));
        if used.len() < 2 {
        } else if used.len() <= self.rules.max_cat_to_onehot {
            self.lemma_best_alone(codes, rows, used, used.len());
        } else {
            let ranked = self.ranked(used);
            let n = self.scan_limit(used.len());
            used.unique_seq_to_set();
            self.lemma_ranked_distinct(used);
            self.lemma_best_prefix(codes, rows, ranked, n, None);
            let low = self.best_prefix(ranked, n, None);
            self.lemma_best_prefix(codes, rows, ranked.reverse(), n, low);
        }
    }
}

// The growing tree.

/// One of the two children of a node.
pub open spec fn child_of(node: SplitNode, left: bool) -> i32 {
    if left {
        node.left_child
    } else {
        node.right_child
    }
}

/// How many nodes a row visits from the node `at`.
pub open spec fn visits(nodes: Seq<SplitNode>, sets: Seq<Seq<u64>>, row: Seq<u16>, at: int) -> nat
    decreases nodes.len() - at,
{
    if 0 <= at < nodes.len() {
        let next = taken_child(nodes[at], sets, row);
        if at < next < nodes.len() {
            1 + visits(nodes, sets, row, next as int)
        } else {
            1
        }
    } else {
        0
    }
}

impl<W: Wide> Stage<W> {
    /// The pointer that leads to a leaf names its position.
    pub open spec fn linked(self, leaf: Leaf<W>) -> bool {
        &&& leaf.index < self.tree.leaf_values.len()
        &&& if leaf.parent < 0 {
            leaf.parent == -1 && self.tree.nodes.len() == 0 && leaf.index == 0
        } else {
            leaf.parent < self.tree.nodes.len() && child_of(
                self.tree.nodes[leaf.parent as int],
                leaf.is_left,
            ) == -leaf.index - 1
        }
    }

    /// A pointer to a leaf leads to one of the leaves.
    pub open spec fn owned(self, at: int, left: bool) -> bool {
        child_of(self.tree.nodes[at], left) < 0 ==> exists|j: int|
            0 <= j < self.leaves.len() && (#[trigger] self.leaves[j]).parent == at
                && self.leaves[j].is_left == left
    }
}

impl<W: Wide> Growth<W> {
    /// A leaf counts its rows right, and its best split is up to date.
    pub open spec fn leaf_sound(self, leaf: Leaf<W>) -> bool {
        &&& leaf.rows.len() <= u32::MAX
        &&& leaf.count == leaf.rows.len()
        &&& forall|k: int| 0 <= k < leaf.rows.len() ==> (#[trigger] leaf.rows[k]) < self.table.rows
        &&& leaf.hists.len() == self.features.len()
        &&& forall|s: int|
            #![trigger leaf.hists[s]]
            0 <= s < self.features.len() ==> {
                &&& leaf.hists[s].len() == self.bins(s)
                &&& counts_rows(leaf.hists[s], self.codes(s), leaf.rows)
            }
        &&& leaf.best == self.best_split(leaf)
        &&& self.rules.max_depth > 0 ==> leaf.depth <= self.rules.max_depth
    }

    /// The pointers of a growing tree.
    pub open spec fn links_sound(self, stage: Stage<W>) -> bool {
        &&& stage.tree.valid(self.table.codes.len())
        &&& stage.tree.leaf_values.len() == 2 * stage.tree.nodes.len() + 1
        &&& stage.leaves.len() == stage.tree.nodes.len() + 1
        &&& stage.tree.nodes.len() < self.rules.num_leaves || stage.tree.nodes.len() == 0
        &&& stage.tree.category_sets.len() <= stage.tree.nodes.len()
        &&& forall|j: int|
            #![trigger stage.leaves[j]]
            0 <= j < stage.leaves.len() ==> {
                &&& stage.linked(stage.leaves[j])
                &&& stage.leaves[j].depth <= stage.tree.nodes.len()
            }
        &&& forall|i: int, j: int|
            #![trigger stage.leaves[i], stage.leaves[j]]
            0 <= i < j < stage.leaves.len() ==> stage.leaves[i].index != stage.leaves[j].index
        &&& forall|at: int, left: bool|
            0 <= at < stage.tree.nodes.len() ==> #[trigger] stage.owned(at, left)
    }

    /// Every sampled row is recorded at the leaf that the tree leads it to.
    pub open spec fn rows_sound(self, stage: Stage<W>) -> bool {
        &&& stage.row_to_leaf.len() == self.table.rows
        &&& forall|r: int|
            0 <= r < self.table.rows ==> (#[trigger] stage.row_to_leaf[r])
                < stage.tree.leaf_values.len()
        &&& forall|r: u32|
            self.rows.contains(r) ==> #[trigger] stage.tree.leaf_of(self.row(r as int))
                == stage.row_to_leaf[r as int]
        &&& forall|j: int, r: u32|
            #![trigger stage.leaves[j].rows.contains(r)]
            0 <= j < stage.leaves.len() ==> (stage.leaves[j].rows.contains(r) <==> (
            self.rows.contains(r) && stage.row_to_leaf[r as int] == stage.leaves[j].index))
        &&& forall|r: int|
            #![trigger stage.row_to_leaf[r]]
            0 <= r < self.table.rows && !self.rows.contains(r as u32) ==> stage.row_to_leaf[r] == 0
    }

    /// The depth of a leaf is the number of nodes on the way to it.
    pub open spec fn depths_sound(self, stage: Stage<W>) -> bool {
        forall|j: int, row: Seq<u16>|
            #![trigger stage.leaves[j], stage.tree.leaf_of(row)]
            0 <= j < stage.leaves.len() && stage.tree.leaf_of(row) == stage.leaves[j].index
                ==> visits(stage.tree.nodes, stage.tree.category_sets, row, 0)
                == stage.leaves[j].depth
    }

    /// What holds of a tree at every stage of its growth.
    pub open spec fn sound(self, stage: Stage<W>) -> bool {
        &&& self.links_sound(stage)
        &&& forall|j: int|
            0 <= j < stage.leaves.len() ==> self.leaf_sound(#[trigger] stage.leaves[j])
        &&& self.rows_sound(stage)
        &&& self.depths_sound(stage)
    }

    proof fn lemma_best_of_slots(self, leaf: Leaf<W>, n: nat)
        requires
            self.valid(),
            self.leaf_sound(leaf),
            n <= self.features.len(),
        ensures
            self.best_of_slots(leaf, n) matches Some(s) ==> {
                &&& s.feature < self.table.codes.len()
                &&& s.counts_match(self.table.codes[s.feature as int], leaf.rows)
                &&& s.within_limits(self.rules)
                &&& s.cat_left_bins is Some ==> self.table.binnings[s.feature as int].categorical()
            },
        decreases n,
    {
        if n > 0 {
            self.lemma_best_of_slots(leaf, (n - 1) as nat);
            let slot = n - 1;
            let feature = self.features[slot];
            assert(feature < self.table.codes.len());
            let query = self.query(leaf, slot);
            let codes = self.codes(slot);
            assert(leaf.hists[slot].len() == self.bins(slot));
            assert(self.table.binnings[feature as int].bins() <= 0x10000);
            assert(query.describes(codes, leaf.rows)) by {
                assert forall|k: int| 0 <= k < leaf.rows.len() implies codes[(
                #[trigger] leaf.rows[k]) as int] < query.hist.len() by {
                    let r = leaf.rows[k] as int;
                    assert(r < self.table.rows);
                    assert(self.table.codes[feature as int][r]
                        < self.table.binnings[feature as int].bins());
                }
            }
            query.lemma_best_subset_counts(codes, leaf.rows);
            query.lemma_best_numeric_counts(
                self.table.binnings[feature as int].upper_bounds,
                codes,
                leaf.rows,
            );
        }
    }

    /// The best split of a leaf is on a feature of the data, and its counts are
    /// the sizes of the two groups of rows that it makes.
    pub proof fn lemma_best_split(self, leaf: Leaf<W>)
        requires
            self.valid(),
            self.leaf_sound(leaf),
        ensures
            leaf.best matches Some(s) ==> {
                &&& self.splittable(leaf)
                &&& s.feature < self.table.codes.len()
                &&& s.counts_match(self.table.codes[s.feature as int], leaf.rows)
                &&& s.within_limits(self.rules)
                &&& s.cat_left_bins is Some ==> self.table.binnings[s.feature as int].categorical()
            },
    {
        if self.splittable(leaf) {
            self.lemma_best_of_slots(leaf, self.features.len());
        }
    }
}

/// The picked leaf is one of the leaves, and has a split.
pub proof fn lemma_pick<W: Wide>(leaves: Seq<Leaf<W>>, n: nat)
    requires
        n <= leaves.len(),
    ensures
        pick(leaves, n) matches Some(j) ==> 0 <= j < n && leaves[j].best is Some,
    decreases n,
{
    if n > 0 {
        lemma_pick(leaves, (n - 1) as nat);
    }
}

impl<W: Wide> Growth<W> {
    /// The single leaf is a sound start.
    pub proof fn lemma_start(self)
        requires
            self.valid(),
        ensures
            self.sound(self.start()),
    {
        let stage = self.start();
        let root = self.root();
        assert(stage.leaves[0] == root);
        assert forall|s: int| #![trigger root.hists[s]] 0 <= s < self.features.len() implies {
            &&& root.hists[s].len() == self.bins(s)
            &&& counts_rows(root.hists[s], self.codes(s), root.rows)
        } by {
            self.lemma_rows_coded(self.rows, s);
            lemma_hist_counts::<W>(self.codes(s), self.rows, self.gradhess, self.bins(s));
        }
        assert(self.best_split(root) == root.best) by {
            self.lemma_best_ignored(root, None);
        }
        assert(self.leaf_sound(root));
        assert(self.links_sound(stage));
        assert(self.rows_sound(stage)) by {
            assert forall|j: int, r: u32|
                #![trigger stage.leaves[j].rows.contains(r)]
                0 <= j < stage.leaves.len() implies (stage.leaves[j].rows.contains(r) <==> (
            self.rows.contains(r) && stage.row_to_leaf[r as int] == stage.leaves[j].index)) by {
                if self.rows.contains(r) {
                    let k = choose|k: int| 0 <= k < self.rows.len() && self.rows[k] == r;
                    assert(self.rows[k] < self.table.rows);
                }
            }
            assert forall|r: u32| self.rows.contains(r) implies #[trigger] stage.tree.leaf_of(
                self.row(r as int),
            ) == stage.row_to_leaf[r as int] by {
                let k = choose|k: int| 0 <= k < self.rows.len() && self.rows[k] == r;
                assert(self.rows[k] < self.table.rows);
            }
        }
    }

    /// The codes of rows of the table lie within the bins of their feature.
    pub proof fn lemma_rows_coded(self, rows: Seq<u32>, slot: int)
        requires
            self.valid(),
            0 <= slot < self.features.len(),
            forall|k: int| 0 <= k < rows.len() ==> (#[trigger] rows[k]) < self.table.rows,
        ensures
            codes_below(self.codes(slot), rows, self.bins(slot)),
    {
        let f = self.features[slot] as int;
        assert(self.features[slot] < self.table.codes.len());
        assert forall|k: int| 0 <= k < rows.len() implies self.codes(slot)[(
        #[trigger] rows[k]) as int] < self.bins(slot) by {
            assert(self.table.codes[f][rows[k] as int] < self.table.binnings[f].bins());
        }
    }

    /// The search for the best split does not read the split found so far.
    pub proof fn lemma_best_ignored(self, leaf: Leaf<W>, best: Option<Split<W>>)
        ensures
            self.best_split(leaf) == self.best_split(Leaf { best, ..leaf }),
    {
        self.lemma_slots_ignored(leaf, best, self.features.len());
    }

    proof fn lemma_slots_ignored(self, leaf: Leaf<W>, best: Option<Split<W>>, n: nat)
        ensures
            self.best_of_slots(leaf, n) == self.best_of_slots(Leaf { best, ..leaf }, n),
        decreases n,
    {
        if n > 0 {
            self.lemma_slots_ignored(leaf, best, (n - 1) as nat);
        }
    }

    // One step: the leaf at position `i` is replaced by a node with two leaves.

    /// A step may split the leaf at position `i`.
    pub open spec fn may_split(self, stage: Stage<W>, i: int) -> bool {
        &&& self.valid()
        &&& self.sound(stage)
        &&& 0 <= i < stage.leaves.len() < self.rules.num_leaves
        &&& stage.leaves[i].best is Some
    }

    pub proof fn lemma_new_node(self, stage: Stage<W>, i: int, row: Seq<u16>)
        requires
            self.may_split(stage, i),
        ensures
            ({
                let leaf = stage.leaves[i];
                let split = leaf.best->0;
                let tree = stage.tree;
                let new = self.split_tree(stage, i);
                let node = new.nodes[tree.nodes.len() as int];
                &&& new.nodes.len() == tree.nodes.len() + 1
                &&& node == split.node(tree.category_sets.len(), tree.leaf_values.len())
                &&& node.feature == split.feature
                &&& node.left_child == -tree.leaf_values.len() - 1
                &&& node.right_child == -tree.leaf_values.len() - 2
                &&& goes_left(node, new.category_sets, row[node.feature as int]) == split.left(
                    row[split.feature as int],
                )
                &&& node.is_categorical == 1 ==> node.threshold_bin < new.category_sets.len()
            }),
    {
        let leaf = stage.leaves[i];
        let split = leaf.best->0;
        assert(self.leaf_sound(leaf));
        self.lemma_best_split(leaf);
        assert(stage.linked(leaf));
        if split.cat_left_bins is Some {
            assert(self.table.binnings[split.feature as int].categorical());
            assert(stage.tree.category_sets.len() <= 0xffff);
        }
    }

    /// An old node keeps its decisions and its children, but for the pointer to
    /// the split leaf, which now leads to the new node.
    pub proof fn lemma_old_node(self, stage: Stage<W>, i: int, at: int, left: bool, row: Seq<u16>)
        requires
            self.may_split(stage, i),
            0 <= at < stage.tree.nodes.len(),
        ensures
            ({
                let leaf = stage.leaves[i];
                let old_node = stage.tree.nodes[at];
                let new = self.split_tree(stage, i);
                let node = new.nodes[at];
                &&& node.feature == old_node.feature
                &&& node.threshold_bin == old_node.threshold_bin
                &&& node.is_categorical == old_node.is_categorical
                &&& goes_left(node, new.category_sets, row[node.feature as int]) == goes_left(
                    old_node,
                    stage.tree.category_sets,
                    row[old_node.feature as int],
                )
                &&& child_of(node, left) == if at == leaf.parent && left == leaf.is_left {
                    stage.tree.nodes.len() as i32
                } else {
                    child_of(old_node, left)
                }
                &&& child_of(old_node, left) == -leaf.index - 1 ==> at == leaf.parent && left
                    == leaf.is_left
            }),
    {
        let leaf = stage.leaves[i];
        assert(stage.linked(leaf));
        assert(stage.tree.node_valid(at, self.table.codes.len()));
        let old_node = stage.tree.nodes[at];
        if child_of(old_node, left) == -leaf.index - 1 {
            assert(stage.owned(at, left));
            let j = choose|j: int|
                0 <= j < stage.leaves.len() && (#[trigger] stage.leaves[j]).parent == at
                    && stage.leaves[j].is_left == left;
            assert(stage.linked(stage.leaves[j]));
            assert(stage.leaves[j].index == leaf.index);
            if j < i {
                assert(stage.leaves[j].index != stage.leaves[i].index);
            }
            if i < j {
                assert(stage.leaves[i].index != stage.leaves[j].index);
            }
        }
    }

    /// After a step a row that reached the split leaf reaches one of the two new
    /// leaves, one node later; every other row goes where it went.
    proof fn lemma_step_walk(self, stage: Stage<W>, i: int, row: Seq<u16>, at: int)
        requires
            self.may_split(stage, i),
            0 <= at < stage.tree.nodes.len() || (at == 0 && stage.tree.nodes.len() == 0),
        ensures
            ({
                let leaf = stage.leaves[i];
                let split = leaf.best->0;
                let tree = stage.tree;
                let new = self.split_tree(stage, i);
                let before = walk(tree.nodes, tree.category_sets, row, at);
                let after = walk(new.nodes, new.category_sets, row, at);
                let seen = visits(tree.nodes, tree.category_sets, row, at);
                let now = visits(new.nodes, new.category_sets, row, at);
                if before == leaf.index {
                    &&& now == seen + 1
                    &&& after == if split.left(row[split.feature as int]) {
                        tree.leaf_values.len() as int
                    } else {
                        (tree.leaf_values.len() + 1) as int
                    }
                } else {
                    after == before && now == seen
                }
            }),
        decreases stage.tree.nodes.len() - at,
    {
        let leaf = stage.leaves[i];
        let tree = stage.tree;
        let new = self.split_tree(stage, i);
        let n = tree.nodes.len() as int;
        self.lemma_new_node(stage, i, row);
        assert(stage.linked(leaf));
        reveal_with_fuel(walk, 2);
        reveal_with_fuel(visits, 2);
        if n > 0 {
            let old_node = tree.nodes[at];
            let left = goes_left(old_node, tree.category_sets, row[old_node.feature as int]);
            self.lemma_old_node(stage, i, at, left, row);
            assert(tree.node_valid(at, self.table.codes.len()));
            let next = child_of(old_node, left);
            assert(taken_child(old_node, tree.category_sets, row) == next);
            if next >= 0 {
                self.lemma_step_walk(stage, i, row, next as int);
            }
        }
    }
}

impl<W: Wide> Growth<W> {
    /// The rows that a split sends left and right: every row of the leaf goes to
    /// one side.
    proof fn lemma_sides(self, split: Split<W>, codes: Seq<u16>, rows: Seq<u32>)
        ensures
            forall|x: u32|
                #![trigger split.left_rows(codes, rows).contains(x)]
                split.left_rows(codes, rows).contains(x) <==> rows.contains(x) && split.left(
                    codes[x as int],
                ),
            forall|x: u32|
                #![trigger split.right_rows(codes, rows).contains(x)]
                split.right_rows(codes, rows).contains(x) <==> rows.contains(x) && !split.left(
                    codes[x as int],
                ),
            split.left_rows(codes, rows).len() + split.right_rows(codes, rows).len() == rows.len(),
            split.right_rows(codes, rows) == rows.filter(
                |r: u32| !(|r: u32| split.left(codes[r as int]))(r),
            ),
    {
        let left = |r: u32| split.left(codes[r as int]);
        let right = |r: u32| !split.left(codes[r as int]);
        lemma_filter_halves(rows, left);
        lemma_filter_halves(rows, right);
        lemma_filter_same(rows, right, |r: u32| !left(r));
    }

    /// Counting the smaller side and subtracting it from the parent counts both
    /// sides right.
    proof fn lemma_child_hists(self, stage: Stage<W>, i: int, s: int)
        requires
            self.may_split(stage, i),
            0 <= s < self.features.len(),
        ensures
            ({
                let new = self.split_leaves(stage, i);
                &&& new.0.hists.len() == self.features.len()
                &&& new.1.hists.len() == self.features.len()
                &&& new.0.hists[s].len() == self.bins(s)
                &&& new.1.hists[s].len() == self.bins(s)
                &&& counts_rows(new.0.hists[s], self.codes(s), new.0.rows)
                &&& counts_rows(new.1.hists[s], self.codes(s), new.1.rows)
            }),
    {
        let leaf = stage.leaves[i];
        let split = leaf.best->0;
        let codes = self.table.codes[split.feature as int];
        let left_rows = split.left_rows(codes, leaf.rows);
        let right_rows = split.right_rows(codes, leaf.rows);
        assert(self.leaf_sound(leaf));
        self.lemma_sides(split, codes, leaf.rows);
        self.lemma_rows_within(leaf.rows, left_rows);
        self.lemma_rows_within(leaf.rows, right_rows);
        self.lemma_rows_coded(left_rows, s);
        self.lemma_rows_coded(right_rows, s);
        lemma_hist_counts::<W>(self.codes(s), left_rows, self.gradhess, self.bins(s));
        lemma_hist_counts::<W>(self.codes(s), right_rows, self.gradhess, self.bins(s));
        let parent = leaf.hists[s];
        let new = self.split_leaves(stage, i);
        assert forall|b: int| 0 <= b < self.bins(s) implies parent[b].count == rows_in_bin(
            self.codes(s),
            left_rows,
            b,
        ) + #[trigger] rows_in_bin(self.codes(s), right_rows, b) by {
            lemma_rows_in_bin_split(
                self.codes(s),
                leaf.rows,
                b,
                |r: u32| split.left(codes[r as int]),
            );
        }
        if left_rows.len() <= right_rows.len() {
            assert(new.0.hists[s] == hist_of::<W>(
                self.codes(s),
                left_rows,
                self.gradhess,
                self.bins(s),
            ));
            assert(new.1.hists[s] == difference(parent, new.0.hists[s]));
            assert forall|b: int| 0 <= b < self.bins(s) implies (
            #[trigger] new.1.hists[s][b]).count == rows_in_bin(self.codes(s), right_rows, b) by {
                assert(new.0.hists[s][b].count == rows_in_bin(self.codes(s), left_rows, b));
            }
        } else {
            assert(new.1.hists[s] == hist_of::<W>(
                self.codes(s),
                right_rows,
                self.gradhess,
                self.bins(s),
            ));
            assert(new.0.hists[s] == difference(parent, new.1.hists[s]));
            assert forall|b: int| 0 <= b < self.bins(s) implies (
            #[trigger] new.0.hists[s][b]).count == rows_in_bin(self.codes(s), left_rows, b) by {
                assert(new.1.hists[s][b].count == rows_in_bin(self.codes(s), right_rows, b));
            }
        }
    }

    /// Neither side of a split counts more rows in a bin than the split leaf.
    pub proof fn lemma_side_counts(self, stage: Stage<W>, i: int, s: int)
        requires
            self.may_split(stage, i),
            0 <= s < self.features.len(),
        ensures
            ({
                let leaf = stage.leaves[i];
                let split = leaf.best->0;
                let codes = self.table.codes[split.feature as int];
                let left = self.hists(split.left_rows(codes, leaf.rows))[s];
                let right = self.hists(split.right_rows(codes, leaf.rows))[s];
                &&& leaf.hists[s].len() == left.len() == right.len() == self.bins(s)
                &&& forall|b: int|
                    0 <= b < left.len() ==> (#[trigger] left[b]).count <= leaf.hists[s][b].count
                &&& forall|b: int|
                    0 <= b < right.len() ==> (#[trigger] right[b]).count <= leaf.hists[s][b].count
            }),
    {
        let leaf = stage.leaves[i];
        let split = leaf.best->0;
        let codes = self.table.codes[split.feature as int];
        let left_rows = split.left_rows(codes, leaf.rows);
        let right_rows = split.right_rows(codes, leaf.rows);
        assert(self.leaf_sound(leaf));
        self.lemma_sides(split, codes, leaf.rows);
        self.lemma_rows_within(leaf.rows, left_rows);
        self.lemma_rows_within(leaf.rows, right_rows);
        self.lemma_rows_coded(left_rows, s);
        self.lemma_rows_coded(right_rows, s);
        lemma_hist_counts::<W>(self.codes(s), left_rows, self.gradhess, self.bins(s));
        lemma_hist_counts::<W>(self.codes(s), right_rows, self.gradhess, self.bins(s));
        let left = self.hists(left_rows)[s];
        let right = self.hists(right_rows)[s];
        assert forall|b: int| 0 <= b < self.bins(s) implies {
            &&& (#[trigger] left[b]).count <= leaf.hists[s][b].count
            &&& right[b].count <= leaf.hists[s][b].count
        } by {
            lemma_rows_in_bin_split(
                self.codes(s),
                leaf.rows,
                b,
                |r: u32| split.left(codes[r as int]),
            );
            assert(right[b].count == rows_in_bin(self.codes(s), right_rows, b));
        }
        assert forall|b: int| 0 <= b < right.len() implies (#[trigger] right[b]).count
            <= leaf.hists[s][b].count by {
            assert(left[b].count <= leaf.hists[s][b].count);
        }
    }

    /// The rows of both sides of a split are rows of the table, and no more
    /// than the split leaf has.
    pub proof fn lemma_side_rows(self, stage: Stage<W>, i: int)
        requires
            self.may_split(stage, i),
        ensures
            ({
                let leaf = stage.leaves[i];
                let split = leaf.best->0;
                let codes = self.table.codes[split.feature as int];
                let left = split.left_rows(codes, leaf.rows);
                let right = split.right_rows(codes, leaf.rows);
                &&& left.len() <= u32::MAX
                &&& right.len() <= u32::MAX
                &&& forall|k: int| 0 <= k < left.len() ==> (#[trigger] left[k]) < self.table.rows
                &&& forall|k: int| 0 <= k < right.len() ==> (#[trigger] right[k]) < self.table.rows
                &&& forall|x: u32| !(#[trigger] left.contains(x) && right.contains(x))
            }),
    {
        let leaf = stage.leaves[i];
        let split = leaf.best->0;
        let codes = self.table.codes[split.feature as int];
        assert(self.leaf_sound(leaf));
        self.lemma_sides(split, codes, leaf.rows);
        self.lemma_rows_within(leaf.rows, split.left_rows(codes, leaf.rows));
        self.lemma_rows_within(leaf.rows, split.right_rows(codes, leaf.rows));
    }

    proof fn lemma_rows_within(self, rows: Seq<u32>, part: Seq<u32>)
        requires
            forall|k: int| 0 <= k < rows.len() ==> (#[trigger] rows[k]) < self.table.rows,
            forall|x: u32| #[trigger] part.contains(x) ==> rows.contains(x),
        ensures
            forall|k: int| 0 <= k < part.len() ==> (#[trigger] part[k]) < self.table.rows,
    {
        assert forall|k: int| 0 <= k < part.len() implies (#[trigger] part[k])
            < self.table.rows by {
            assert(part.contains(part[k]));
            let j = choose|j: int| 0 <= j < rows.len() && rows[j] == part[k];
            assert(rows[j] < self.table.rows);
        }
    }

    pub proof fn lemma_new_leaves(self, stage: Stage<W>, i: int)
        requires
            self.may_split(stage, i),
        ensures
            self.leaf_sound(self.split_leaves(stage, i).0),
            self.leaf_sound(self.split_leaves(stage, i).1),
    {
        let leaf = stage.leaves[i];
        let split = leaf.best->0;
        let codes = self.table.codes[split.feature as int];
        let new = self.split_leaves(stage, i);
        assert(self.leaf_sound(leaf));
        self.lemma_best_split(leaf);
        self.lemma_sides(split, codes, leaf.rows);
        self.lemma_rows_within(leaf.rows, new.0.rows);
        self.lemma_rows_within(leaf.rows, new.1.rows);
        self.lemma_best_ignored(new.0, None);
        self.lemma_best_ignored(new.1, None);
        assert(leaf.depth <= stage.tree.nodes.len());
        assert(self.child_hists(leaf.hists, new.0.rows, new.1.rows).0.len()
            == self.features.len());
        assert(self.child_hists(leaf.hists, new.0.rows, new.1.rows).1.len()
            == self.features.len());
        assert forall|s: int| #![trigger new.0.hists[s]] 0 <= s < self.features.len() implies {
            &&& new.0.hists[s].len() == self.bins(s)
            &&& counts_rows(new.0.hists[s], self.codes(s), new.0.rows)
        } by {
            self.lemma_child_hists(stage, i, s);
        }
        assert forall|s: int| #![trigger new.1.hists[s]] 0 <= s < self.features.len() implies {
            &&& new.1.hists[s].len() == self.bins(s)
            &&& counts_rows(new.1.hists[s], self.codes(s), new.1.rows)
        } by {
            self.lemma_child_hists(stage, i, s);
        }
    }

    /// Where the leaves of the next stage come from.
    proof fn lemma_step_leaves(self, stage: Stage<W>, i: int)
        requires
            0 <= i < stage.leaves.len(),
        ensures
            ({
                let next = self.step(stage, i);
                let new = self.split_leaves(stage, i);
                let n = stage.leaves.len();
                &&& next.leaves.len() == n + 1
                &&& next.leaves[n - 1] == new.0
                &&& next.leaves[n as int] == new.1
                &&& forall|j: int|
                    0 <= j < n - 1 ==> #[trigger] next.leaves[j] == stage.leaves[if j == i {
                        n - 1
                    } else {
                        j
                    }]
                &&& forall|j: int|
                    0 <= j < n && j != i ==> exists|k: int|
                        0 <= k < n - 1 && #[trigger] next.leaves[k] == #[trigger] stage.leaves[j]
            }),
    {
        let next = self.step(stage, i);
        let n = stage.leaves.len();
        assert forall|j: int| 0 <= j < n && j != i implies exists|k: int|
            0 <= k < n - 1 && #[trigger] next.leaves[k] == #[trigger] stage.leaves[j] by {
            if j == n - 1 {
                assert(next.leaves[i] == stage.leaves[j]);
            } else {
                assert(next.leaves[j] == stage.leaves[j]);
            }
        }
    }

    proof fn lemma_step_links(self, stage: Stage<W>, i: int)
        requires
            self.may_split(stage, i),
        ensures
            self.links_sound(self.step(stage, i)),
    {
        let next = self.step(stage, i);
        let leaf = stage.leaves[i];
        let n = stage.tree.nodes.len() as int;
        let any = Seq::<u16>::empty();
        self.lemma_new_node(stage, i, any);
        self.lemma_step_leaves(stage, i);
        assert(self.leaf_sound(leaf));
        self.lemma_best_split(leaf);
        assert(stage.linked(leaf));
        assert(stage.leaves[i].depth <= n);
        let new = self.split_leaves(stage, i);
        assert(new.0.index == stage.tree.leaf_values.len());
        assert(new.1.index == stage.tree.leaf_values.len() + 1);
        assert(next.tree.valid(self.table.codes.len())) by {
            assert forall|at: int| 0 <= at < next.tree.nodes.len() implies #[trigger]
                next.tree.node_valid(at, self.table.codes.len()) by {
                if at < n {
                    self.lemma_old_node(stage, i, at, true, any);
                    self.lemma_old_node(stage, i, at, false, any);
                    assert(stage.tree.node_valid(at, self.table.codes.len()));
                }
            }
        }
        assert forall|j: int| #![trigger next.leaves[j]] 0 <= j < next.leaves.len() implies {
            &&& next.linked(next.leaves[j])
            &&& next.leaves[j].depth <= next.tree.nodes.len()
        } by {
            if j < stage.leaves.len() - 1 {
                let from = if j == i {
                    stage.leaves.len() - 1
                } else {
                    j
                };
                let kept = stage.leaves[from];
                assert(next.leaves[j] == kept);
                assert(stage.linked(kept));
                assert(kept.index != leaf.index) by {
                    if from < i {
                        assert(stage.leaves[from].index != stage.leaves[i].index);
                    } else {
                        assert(stage.leaves[i].index != stage.leaves[from].index);
                    }
                }
                self.lemma_old_node(stage, i, kept.parent as int, kept.is_left, any);
            }
        }
        assert forall|a: int, b: int|
            #![trigger next.leaves[a], next.leaves[b]]
            0 <= a < b < next.leaves.len() implies next.leaves[a].index != next.leaves[b].index by {
            let m = stage.leaves.len() - 1;
            let fa = if a == i {
                m as int
            } else {
                a
            };
            let fb = if b == i {
                m as int
            } else {
                b
            };
            if a < m {
                assert(next.leaves[a] == stage.leaves[fa]);
                assert(stage.linked(stage.leaves[fa]));
            }
            if b < m {
                assert(next.leaves[b] == stage.leaves[fb]);
                if fa < fb {
                    assert(stage.leaves[fa].index != stage.leaves[fb].index);
                } else {
                    assert(stage.leaves[fb].index != stage.leaves[fa].index);
                }
            }
        }
        assert forall|at: int, left: bool| 0 <= at < next.tree.nodes.len() implies #[trigger]
            next.owned(at, left) by {
            let m = stage.leaves.len() as int;
            if at == n {
                assert(next.leaves[m - 1].parent == n && next.leaves[m - 1].is_left);
                assert(next.leaves[m].parent == n && !next.leaves[m].is_left);
            } else if child_of(next.tree.nodes[at], left) < 0 {
                self.lemma_old_node(stage, i, at, left, any);
                assert(stage.owned(at, left));
                let j = choose|j: int|
                    0 <= j < stage.leaves.len() && (#[trigger] stage.leaves[j]).parent == at
                        && stage.leaves[j].is_left == left;
                assert(j != i);
                let k = choose|k: int|
                    0 <= k < m - 1 && #[trigger] next.leaves[k] == stage.leaves[j];
                assert(next.leaves[k].parent == at && next.leaves[k].is_left == left);
            }
        }
    }

    proof fn lemma_step_rows(self, stage: Stage<W>, i: int)
        requires
            self.may_split(stage, i),
        ensures
            self.rows_sound(self.step(stage, i)),
    {
        let next = self.step(stage, i);
        let leaf = stage.leaves[i];
        let split = leaf.best->0;
        let codes = self.table.codes[split.feature as int];
        let new = self.split_leaves(stage, i);
        let index = stage.tree.leaf_values.len();
        self.lemma_step_leaves(stage, i);
        self.lemma_step_links(stage, i);
        assert(self.leaf_sound(leaf));
        self.lemma_best_split(leaf);
        assert(stage.linked(leaf));
        self.lemma_sides(split, codes, leaf.rows);
        assert(new.0.index == index && new.1.index == index + 1);
        assert forall|r: u32| self.rows.contains(r) implies r < self.table.rows by {
            let k = choose|k: int| 0 <= k < self.rows.len() && self.rows[k] == r;
            assert(self.rows[k] < self.table.rows);
        }
        assert forall|r: u32| self.rows.contains(r) implies {
            &&& #[trigger] next.tree.leaf_of(self.row(r as int)) == next.row_to_leaf[r as int]
            &&& next.row_to_leaf[r as int] == if leaf.rows.contains(r) {
                if split.left(codes[r as int]) {
                    index as u32
                } else {
                    (index + 1) as u32
                }
            } else {
                stage.row_to_leaf[r as int]
            }
        } by {
            let row = self.row(r as int);
            self.lemma_step_walk(stage, i, row, 0);
            assert(row[split.feature as int] == codes[r as int]);
            assert(stage.tree.leaf_of(row) == stage.row_to_leaf[r as int]);
            assert(stage.leaves[i].rows.contains(r) <==> (self.rows.contains(r)
                && stage.row_to_leaf[r as int] == stage.leaves[i].index));
            assert(new.0.rows.contains(r) <==> leaf.rows.contains(r) && split.left(
                codes[r as int],
            ));
            assert(new.1.rows.contains(r) <==> leaf.rows.contains(r) && !split.left(
                codes[r as int],
            ));
        }
        assert forall|j: int, r: u32|
            #![trigger next.leaves[j].rows.contains(r)]
            0 <= j < next.leaves.len() implies (next.leaves[j].rows.contains(r) <==> (
        self.rows.contains(r) && next.row_to_leaf[r as int] == next.leaves[j].index)) by {
            let m = stage.leaves.len() - 1;
            assert(stage.leaves[i].rows.contains(r) ==> self.rows.contains(r));
            if self.rows.contains(r) {
                assert(next.tree.leaf_of(self.row(r as int)) == next.row_to_leaf[r as int]);
                assert(stage.row_to_leaf[r as int] < index);
            }
            if j < m {
                let from = if j == i {
                    m as int
                } else {
                    j
                };
                assert(next.leaves[j] == stage.leaves[from]);
                assert(stage.linked(stage.leaves[from]));
                assert(stage.leaves[from].rows.contains(r) <==> (self.rows.contains(r)
                    && stage.row_to_leaf[r as int] == stage.leaves[from].index));
                if from < i {
                    assert(stage.leaves[from].index != stage.leaves[i].index);
                } else {
                    assert(stage.leaves[i].index != stage.leaves[from].index);
                }
            }
        }
        assert forall|r: int| 0 <= r < self.table.rows implies (#[trigger] next.row_to_leaf[r])
            < next.tree.leaf_values.len() by {
            assert(stage.row_to_leaf[r] < index);
        }
        assert forall|r: int|
            #![trigger next.row_to_leaf[r]]
            0 <= r < self.table.rows && !self.rows.contains(
                r as u32,
            ) implies next.row_to_leaf[r] == 0 by {
            assert(stage.row_to_leaf[r] == 0);
            assert(!stage.leaves[i].rows.contains(r as u32));
            assert(!new.0.rows.contains(r as u32));
            assert(!new.1.rows.contains(r as u32));
        }
    }

    proof fn lemma_step_depths(self, stage: Stage<W>, i: int)
        requires
            self.may_split(stage, i),
        ensures
            self.depths_sound(self.step(stage, i)),
    {
        let next = self.step(stage, i);
        let leaf = stage.leaves[i];
        let new = self.split_leaves(stage, i);
        let m = stage.leaves.len() - 1;
        self.lemma_step_leaves(stage, i);
        self.lemma_step_links(stage, i);
        assert(stage.linked(leaf));
        assert(stage.leaves[i].depth <= stage.tree.nodes.len());
        assert forall|j: int, row: Seq<u16>|
            #![trigger next.leaves[j], next.tree.leaf_of(row)]
            0 <= j < next.leaves.len() && next.tree.leaf_of(row)
                == next.leaves[j].index implies visits(
            next.tree.nodes,
            next.tree.category_sets,
            row,
            0,
        ) == next.leaves[j].depth by {
            self.lemma_step_walk(stage, i, row, 0);
            lemma_walk_in_range(stage.tree, self.table.codes.len(), row, 0);
            let before = stage.tree.leaf_of(row);
            if before == leaf.index {
                assert(stage.leaves[i].depth == visits(
                    stage.tree.nodes,
                    stage.tree.category_sets,
                    row,
                    0,
                ));
                if j < m {
                    assert(next.linked(next.leaves[j]));
                    let from = if j == i {
                        m as int
                    } else {
                        j
                    };
                    assert(next.leaves[j] == stage.leaves[from]);
                    assert(stage.linked(stage.leaves[from]));
                }
            } else {
                assert(j < m);
                let from = if j == i {
                    m as int
                } else {
                    j
                };
                assert(next.leaves[j] == stage.leaves[from]);
            }
        }
    }

    /// Splitting a leaf keeps a growing tree sound.
    pub proof fn lemma_step(self, stage: Stage<W>, i: int)
        requires
            self.may_split(stage, i),
        ensures
            self.sound(self.step(stage, i)),
    {
        let next = self.step(stage, i);
        self.lemma_step_leaves(stage, i);
        self.lemma_step_links(stage, i);
        self.lemma_step_rows(stage, i);
        self.lemma_step_depths(stage, i);
        self.lemma_new_leaves(stage, i);
        assert forall|j: int| 0 <= j < next.leaves.len() implies self.leaf_sound(
            #[trigger] next.leaves[j],
        ) by {
            let m = stage.leaves.len() - 1;
            if j < m {
                let from = if j == i {
                    m as int
                } else {
                    j
                };
                assert(next.leaves[j] == stage.leaves[from]);
                assert(self.leaf_sound(stage.leaves[from]));
            }
        }
    }

    /// A sound tree stays sound however far it grows.
    pub proof fn lemma_grow(self, stage: Stage<W>, fuel: nat)
        requires
            self.valid(),
            self.sound(stage),
        ensures
            self.sound(self.grow(stage, fuel)),
        decreases fuel,
    {
        let best = pick(stage.leaves, stage.leaves.len());
        lemma_pick(stage.leaves, stage.leaves.len());
        if fuel > 0 && stage.leaves.len() < self.rules.num_leaves && best is Some {
            self.lemma_step(stage, best->0);
            self.lemma_grow(self.step(stage, best->0), (fuel - 1) as nat);
        }
    }
}

} // verus!
