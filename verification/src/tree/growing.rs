//! What growing a tree is for: what leaves, histograms and values hold in terms of
//! the rows that they stand for.

use vstd::prelude::*;

use crate::number::{le, lt, total, whole, Wide};
use crate::tree::bitset::lemma_bitset_of;
use crate::tree::categories::{
    is_end_split, is_single_split, law_categorical_split_sums, participants,
};
use crate::tree::growth::{pick, Growth, Leaf, Stage};
use crate::tree::histogram::{hist_of, rows_in_bin};
use crate::tree::newton::{is_threshold_split, law_numeric_split_sums, shrunk};
use crate::tree::soundness::lemma_pick;
use crate::tree::split::{Query, Split, Sums};
use crate::tree::{goes_left, MissingDir};

verus! {

// Histograms.

/// The rows whose code is `b`, in order.
pub open spec fn rows_coded(codes: Seq<u16>, rows: Seq<u32>, b: u16) -> Seq<u32> {
    rows.filter(|r: u32| codes[r as int] == b)
}

/// The gradients (`part` 0) or hessians (`part` 1) of rows, added up in order.
pub open spec fn part_total<W: Wide>(
    gradhess: Seq<[W::Narrow; 2]>,
    rows: Seq<u32>,
    part: int,
) -> W {
    total(Seq::new(rows.len(), |k: int| W::widened(gradhess[rows[k] as int]@[part])))
}

proof fn lemma_part_total_push<W: Wide>(
    gradhess: Seq<[W::Narrow; 2]>,
    rows: Seq<u32>,
    r: u32,
    part: int,
)
    ensures
        part_total::<W>(gradhess, rows.push(r), part) == part_total::<W>(
            gradhess,
            rows,
            part,
        ).sum_of(W::widened(gradhess[r as int]@[part])),
{
    let more = Seq::new(
        rows.push(r).len(),
        |k: int| W::widened(gradhess[rows.push(r)[k] as int]@[part]),
    );
    assert(more.drop_last() =~= Seq::new(
        rows.len(),
        |k: int| W::widened(gradhess[rows[k] as int]@[part]),
    ));
}

/// Every bin of a histogram holds the gradients, the hessians and the number of the
/// rows whose code it is, added up in row order.
pub proof fn law_histogram<W: Wide>(
    codes: Seq<u16>,
    rows: Seq<u32>,
    gradhess: Seq<[W::Narrow; 2]>,
    n: nat,
    b: u16,
)
    requires
        b < n,
        rows.len() <= u32::MAX,
        forall|k: int| 0 <= k < rows.len() ==> codes[(#[trigger] rows[k]) as int] < n,
    ensures
        ({
            let hist = hist_of::<W>(codes, rows, gradhess, n);
            let coded = rows_coded(codes, rows, b);
            &&& hist.len() == n
            &&& hist[b as int].grad == part_total::<W>(gradhess, coded, 0)
            &&& hist[b as int].hess == part_total::<W>(gradhess, coded, 1)
            &&& hist[b as int].count == coded.len()
            &&& coded.len() <= rows.len()
        }),
    decreases rows.len(),
{
    reveal(Seq::filter);
    if rows.len() == 0 {
        let none = Seq::<W>::empty();
        let coded = rows_coded(codes, rows, b);
        assert(coded =~= Seq::<u32>::empty());
        assert(Seq::new(coded.len(), |k: int| W::widened(gradhess[coded[k] as int]@[0])) =~= none);
        assert(Seq::new(coded.len(), |k: int| W::widened(gradhess[coded[k] as int]@[1])) =~= none);
    } else {
        let init = rows.drop_last();
        let r = rows.last();
        assert forall|k: int| 0 <= k < init.len() implies codes[(#[trigger] init[k]) as int] < n by {
            assert(rows[k] == init[k]);
        }
        assert(codes[rows[rows.len() - 1] as int] < n);
        law_histogram::<W>(codes, init, gradhess, n, b);
        let coded = rows_coded(codes, init, b);
        lemma_part_total_push::<W>(gradhess, coded, r, 0);
        lemma_part_total_push::<W>(gradhess, coded, r, 1);
    }
}

/// When a leaf is split, the histogram of the side with fewer rows (the left one
/// among equals) is counted from its rows; that of the other side is the parent's
/// minus it, bin by bin.
pub proof fn law_child_histograms<W: Wide>(g: Growth<W>, stage: Stage<W>, i: int, s: int, b: u16)
    requires
        g.may_split(stage, i),
        0 <= s < g.features.len(),
        b < g.bins(s),
    ensures
        ({
            let (left, right) = g.split_leaves(stage, i);
            let (small, large) = if left.rows.len() <= right.rows.len() {
                (left, right)
            } else {
                (right, left)
            };
            let coded = rows_coded(g.codes(s), small.rows, b);
            let counted = small.hists[s][b as int];
            let taken = large.hists[s][b as int];
            let parent = stage.leaves[i].hists[s][b as int];
            &&& counted.grad == part_total::<W>(g.gradhess, coded, 0)
            &&& counted.hess == part_total::<W>(g.gradhess, coded, 1)
            &&& counted.count == coded.len()
            &&& taken.grad == parent.grad.difference_of(counted.grad)
            &&& taken.hess == parent.hess.difference_of(counted.hess)
            &&& taken.count == rows_coded(g.codes(s), large.rows, b).len()
        }),
{
    let (left, right) = g.split_leaves(stage, i);
    g.lemma_new_leaves(stage, i);
    assert(g.leaf_sound(stage.leaves[i]));
    assert(g.leaf_sound(left) && g.leaf_sound(right));
    assert(stage.leaves[i].hists[s].len() == g.bins(s));
    assert(left.hists[s].len() == g.bins(s) && right.hists[s].len() == g.bins(s));
    let (small, large) = if left.rows.len() <= right.rows.len() {
        (left, right)
    } else {
        (right, left)
    };
    lemma_coded_below(g, small.rows, s);
    lemma_coded_below(g, large.rows, s);
    law_histogram::<W>(g.codes(s), small.rows, g.gradhess, g.bins(s), b);
    law_histogram::<W>(g.codes(s), large.rows, g.gradhess, g.bins(s), b);
    lemma_rows_in_bin(g.codes(s), large.rows, b);
}

proof fn lemma_coded_below<W: Wide>(g: Growth<W>, rows: Seq<u32>, s: int)
    requires
        g.valid(),
        0 <= s < g.features.len(),
        forall|k: int| 0 <= k < rows.len() ==> (#[trigger] rows[k]) < g.table.rows,
    ensures
        forall|k: int| 0 <= k < rows.len() ==> g.codes(s)[(#[trigger] rows[k]) as int] < g.bins(s),
{
    let f = g.features[s] as int;
    assert forall|k: int| 0 <= k < rows.len() implies g.codes(s)[(#[trigger] rows[k]) as int]
        < g.bins(s) by {
        assert(g.table.codes[f][rows[k] as int] < g.table.binnings[f].bins());
    }
}

proof fn lemma_rows_in_bin(codes: Seq<u16>, rows: Seq<u32>, b: u16)
    ensures
        rows_in_bin(codes, rows, b as int) == rows_coded(
            codes,
            rows,
            b,
        ).len(),
    decreases rows.len(),
{
    reveal(Seq::filter);
    if rows.len() > 0 {
        lemma_rows_in_bin(codes, rows.drop_last(), b);
    }
}

// Routing.

/// A split sends a code left: a listed category, a real bin up to the threshold, or
/// the missing bin when missing values go left.
pub proof fn law_routing<W: Wide>(split: Split<W>, code: u16)
    ensures
        match split.cat_left_bins {
            Some(list) => split.left(code) <==> list.contains(code),
            None => if code == 0 {
                split.left(code) <==> split.missing_dir == MissingDir::Left
            } else {
                split.left(code) <==> code <= split.threshold_bin
            },
        },
{
    match split.cat_left_bins {
        Some(list) => {
            lemma_bitset_of(list, code);
        },
        None => {},
    }
}

/// The node that a split becomes decides every row as the split does, on the
/// feature of the split, and carries its raw threshold and its gain. Its children
/// are the two new leaves. The rows of the split leaf go to them in order, each to
/// the side that the split sends its code to, one level deeper.
pub proof fn law_new_node<W: Wide>(g: Growth<W>, stage: Stage<W>, i: int, row: Seq<u16>)
    requires
        g.may_split(stage, i),
    ensures
        ({
            let leaf = stage.leaves[i];
            let split = leaf.best->0;
            let codes = g.table.codes[split.feature as int];
            let next = g.step(stage, i);
            let (left, right) = g.split_leaves(stage, i);
            let at = stage.tree.nodes.len() as int;
            let node = next.tree.nodes[at];
            &&& next.tree.nodes.len() == at + 1
            &&& node.feature == split.feature
            &&& goes_left(node, next.tree.category_sets, row[node.feature as int]) <==> split.left(
                row[split.feature as int],
            )
            &&& next.tree.node_thresholds[at] == split.threshold_value
            &&& next.tree.node_gains[at] == split.gain
            &&& -node.left_child - 1 == left.index == stage.tree.leaf_values.len()
            &&& -node.right_child - 1 == right.index == stage.tree.leaf_values.len() + 1
            &&& left.rows == leaf.rows.filter(|r: u32| split.left(codes[r as int]))
            &&& right.rows == leaf.rows.filter(|r: u32| !split.left(codes[r as int]))
            &&& left.depth == leaf.depth + 1 && right.depth == leaf.depth + 1
            &&& left.sum_grad == split.left_sum_grad && left.sum_hess == split.left_sum_hess
            &&& right.sum_grad == split.right_sum_grad && right.sum_hess == split.right_sum_hess
            &&& left.count == left.rows.len() && right.count == right.rows.len()
        }),
{
    g.lemma_new_node(stage, i, row);
    g.lemma_new_leaves(stage, i);
    assert(g.links_sound(stage));
    assert(stage.linked(stage.leaves[i]));
    assert(stage.leaves[i].depth <= stage.tree.nodes.len());
}

// Leaf values.

/// The value that lowers the loss of a leaf the most: minus the gradient sum over
/// the hessian sum, both regularized.
pub open spec fn newton_value<W: Wide>(g: Growth<W>, grad: W, hess: W) -> W {
    shrunk(grad, g.rules.lambda_l1).negation_of().quotient_of(hess.sum_of(g.rules.lambda_l2))
}

/// The value at the position of every leaf is the Newton value of its sums.
pub open spec fn values_fit<W: Wide>(g: Growth<W>, stage: Stage<W>) -> bool {
    forall|j: int|
        #![trigger stage.leaves[j]]
        0 <= j < stage.leaves.len() ==> stage.tree.leaf_values[stage.leaves[j].index as int]
            == newton_value(g, stage.leaves[j].sum_grad, stage.leaves[j].sum_hess)
}

proof fn lemma_step_values<W: Wide>(g: Growth<W>, stage: Stage<W>, i: int)
    requires
        g.may_split(stage, i),
        values_fit(g, stage),
    ensures
        values_fit(g, g.step(stage, i)),
        g.step(stage, i).tree.leaf_values[0] == stage.tree.leaf_values[0],
{
    let next = g.step(stage, i);
    let m = stage.leaves.len() - 1;
    law_new_node(g, stage, i, Seq::empty());
    assert(stage.linked(stage.leaves[i]));
    assert forall|j: int| #![trigger next.leaves[j]] 0 <= j < next.leaves.len() implies
        next.tree.leaf_values[next.leaves[j].index as int] == newton_value(
        g,
        next.leaves[j].sum_grad,
        next.leaves[j].sum_hess,
    ) by {
        if j < m {
            let from = if j == i {
                m
            } else {
                j
            };
            assert(next.leaves[j] == stage.leaves[from]);
            assert(stage.linked(stage.leaves[from]));
        }
    }
}

proof fn lemma_grow_values<W: Wide>(g: Growth<W>, stage: Stage<W>, fuel: nat)
    requires
        g.valid(),
        g.sound(stage),
        values_fit(g, stage),
    ensures
        values_fit(g, g.grow(stage, fuel)),
        g.grow(stage, fuel).tree.leaf_values[0] == stage.tree.leaf_values[0],
    decreases fuel,
{
    let best = pick(stage.leaves, stage.leaves.len());
    lemma_pick(stage.leaves, stage.leaves.len());
    if fuel > 0 && stage.leaves.len() < g.rules.num_leaves && best is Some {
        g.lemma_step(stage, best->0);
        lemma_step_values(g, stage, best->0);
        lemma_grow_values(g, g.step(stage, best->0), (fuel - 1) as nat);
    }
}

/// Every leaf of a grown tree predicts the Newton value of its gradient and hessian
/// sums. Leaf 0, which rows that were not sampled are recorded at, keeps the Newton
/// value of all sampled rows.
pub proof fn law_leaf_values<W: Wide>(g: Growth<W>, j: int)
    requires
        g.valid(),
        0 <= j < g.grown().leaves.len(),
    ensures
        ({
            let leaf = g.grown().leaves[j];
            g.grown().tree.leaf_values[leaf.index as int] == newton_value(
                g,
                leaf.sum_grad,
                leaf.sum_hess,
            )
        }),
        g.grown().tree.leaf_values[0] == newton_value(
            g,
            part_total::<W>(g.gradhess, g.rows, 0),
            part_total::<W>(g.gradhess, g.rows, 1),
        ),
{
    g.lemma_start();
    assert(g.start().leaves[0] == g.root());
    lemma_grow_values(g, g.start(), g.rules.num_leaves as nat);
}

/// The root holds the sampled rows with their gradient and hessian sums, and their
/// histogram on every sampled feature.
pub proof fn law_root<W: Wide>(g: Growth<W>, s: int, b: u16)
    requires
        g.valid(),
        0 <= s < g.features.len(),
        b < g.bins(s),
    ensures
        ({
            let root = g.start().leaves[0];
            let coded = rows_coded(g.codes(s), g.rows, b);
            &&& g.start().leaves.len() == 1
            &&& root.rows == g.rows
            &&& root.count == g.rows.len()
            &&& root.depth == 0
            &&& root.sum_grad == part_total::<W>(g.gradhess, g.rows, 0)
            &&& root.sum_hess == part_total::<W>(g.gradhess, g.rows, 1)
            &&& root.hists[s][b as int].grad == part_total::<W>(g.gradhess, coded, 0)
            &&& root.hists[s][b as int].hess == part_total::<W>(g.gradhess, coded, 1)
            &&& root.hists[s][b as int].count == coded.len()
        }),
{
    lemma_coded_below(g, g.rows, s);
    law_histogram::<W>(g.codes(s), g.rows, g.gradhess, g.bins(s), b);
}

// The split of a leaf.

/// One sampled feature of a leaf.
pub open spec fn asked<W: Wide>(g: Growth<W>, leaf: Leaf<W>, s: int) -> Query<W> {
    Query {
        feature: g.features[s],
        hist: leaf.hists[s],
        parent: Sums { grad: leaf.sum_grad, hess: leaf.sum_hess, count: leaf.count as i64 },
        rules: g.rules,
    }
}

/// A split of a leaf on its feature `s`: by categories where the feature is
/// categorical, else by a threshold.
pub open spec fn splits_on<W: Wide>(g: Growth<W>, leaf: Leaf<W>, s: int, split: Split<W>) -> bool {
    let q = asked(g, leaf, s);
    let binning = g.table.binnings[g.features[s] as int];
    if !binning.categorical() {
        is_threshold_split(q, binning.upper_bounds, split)
    } else if participants(q, q.hist.len()) <= g.rules.max_cat_to_onehot {
        is_single_split(q, split)
    } else {
        is_end_split(q, split)
    }
}

proof fn lemma_slots_split<W: Wide>(g: Growth<W>, leaf: Leaf<W>, n: nat)
    requires
        g.valid(),
        g.leaf_sound(leaf),
        n <= g.features.len(),
    ensures
        g.best_of_slots(leaf, n) matches Some(split) ==> exists|s: int|
            0 <= s < n && #[trigger] splits_on(g, leaf, s, split) && g.slot_best(leaf, s) == Some(
                split,
            ) && forall|u: int|
                s < u < n && (#[trigger] g.slot_best(leaf, u)) is Some ==> lt(
                    g.slot_best(leaf, u)->0.gain,
                    split.gain,
                ),
    decreases n,
{
    if n > 0 {
        let s = n - 1;
        lemma_slots_split(g, leaf, s as nat);
        let q = asked(g, leaf, s);
        let f = g.features[s] as int;
        assert(leaf.hists[s].len() == g.bins(s));
        assert(g.features[s] < g.table.codes.len());
        assert(g.table.binnings[f].valid());
        assert(g.query(leaf, s) == q);
        law_numeric_split_sums(q, g.table.binnings[f].upper_bounds);
        law_categorical_split_sums(q);
        match g.best_of_slots(leaf, n) {
            None => {},
            Some(split) => {
                let before = g.best_of_slots(leaf, s as nat);
                if before == Some(split) && (g.slot_best(leaf, s) is None || lt(
                    g.slot_best(leaf, s)->0.gain,
                    split.gain,
                )) {
                    let k = choose|k: int|
                        0 <= k < s && #[trigger] splits_on(g, leaf, k, split) && g.slot_best(
                            leaf,
                            k,
                        ) == Some(split) && forall|u: int|
                            k < u < s && (#[trigger] g.slot_best(leaf, u)) is Some ==> lt(
                                g.slot_best(leaf, u)->0.gain,
                                split.gain,
                            );
                    assert(splits_on(g, leaf, k, split));
                } else {
                    assert(g.slot_best(leaf, s) == Some(split));
                    assert(splits_on(g, leaf, s, split));
                }
            },
        }
    }
}

/// The split of a leaf is a split of one of the sampled features: its sums and its
/// gain come from the histogram of that feature and from the sums of the leaf. Among
/// features whose best splits gain the same, the last one is taken.
pub proof fn law_leaf_split<W: Wide>(g: Growth<W>, leaf: Leaf<W>)
    requires
        g.valid(),
        g.leaf_sound(leaf),
    ensures
        leaf.best matches Some(split) ==> exists|s: int|
            0 <= s < g.features.len() && #[trigger] splits_on(g, leaf, s, split) && forall|u: int|
                s < u < g.features.len() && (#[trigger] g.slot_best(leaf, u)) is Some ==> lt(
                    g.slot_best(leaf, u)->0.gain,
                    split.gain,
                ),
{
    lemma_slots_split(g, leaf, g.features.len());
    match leaf.best {
        None => {},
        Some(split) => {
            let s = choose|s: int|
                0 <= s < g.features.len() && #[trigger] splits_on(g, leaf, s, split) && g.slot_best(
                    leaf,
                    s,
                ) == Some(split) && forall|u: int|
                    s < u < g.features.len() && (#[trigger] g.slot_best(leaf, u)) is Some ==> lt(
                        g.slot_best(leaf, u)->0.gain,
                        split.gain,
                    );
            assert(splits_on(g, leaf, s, split));
        },
    }
}

/// A leaf with enough rows and hessian for two, at a depth where it may be split,
/// has a split as soon as one of its features has one; its own is at least as good.
pub proof fn law_leaf_is_searched<W: Wide>(g: Growth<W>, leaf: Leaf<W>, s: int)
    requires
        g.leaf_sound(leaf),
        leaf.rows.len() >= 2 * g.rules.min_data_in_leaf,
        !lt(leaf.sum_hess, whole::<W>(2).product_of(g.rules.min_sum_hessian_in_leaf)),
        g.rules.max_depth <= 0 || leaf.depth < g.rules.max_depth,
        0 <= s < g.features.len(),
        forall|u: int|
            0 <= u < g.features.len() && (#[trigger] g.slot_best(leaf, u)) is Some
                ==> g.slot_best(leaf, u)->0.gain.rank_of() is Some,
        ({
            let binning = g.table.binnings[g.features[s] as int];
            if binning.categorical() {
                asked(g, leaf, s).best_subset() is Some
            } else {
                asked(g, leaf, s).best_numeric(binning.upper_bounds) is Some
            }
        }),
    ensures
        ({
            let binning = g.table.binnings[g.features[s] as int];
            let split = if binning.categorical() {
                asked(g, leaf, s).best_subset()->0
            } else {
                asked(g, leaf, s).best_numeric(binning.upper_bounds)->0
            };
            leaf.best matches Some(best) && le(split.gain, best.gain)
        }),
{
    assert(g.query(leaf, s) == asked(g, leaf, s));
    lemma_slots_beat(g, leaf, g.features.len());
    assert(g.slot_best(leaf, s) is Some);
}

/// A leaf with too few rows or too little hessian for two leaves, or at the depth
/// limit, is not split.
pub proof fn law_leaf_is_not_searched<W: Wide>(g: Growth<W>, leaf: Leaf<W>)
    requires
        g.leaf_sound(leaf),
        ({
            ||| leaf.rows.len() < 2 * g.rules.min_data_in_leaf
            ||| lt(leaf.sum_hess, W::ratio_of(2, 1).product_of(g.rules.min_sum_hessian_in_leaf))
            ||| g.rules.max_depth > 0 && leaf.depth >= g.rules.max_depth
        }),
    ensures
        leaf.best is None,
{
}

proof fn lemma_slots_beat<W: Wide>(g: Growth<W>, leaf: Leaf<W>, n: nat)
    requires
        n <= g.features.len(),
        forall|u: int|
            0 <= u < g.features.len() && (#[trigger] g.slot_best(leaf, u)) is Some
                ==> g.slot_best(leaf, u)->0.gain.rank_of() is Some,
    ensures
        g.best_of_slots(leaf, n) matches Some(b) ==> b.gain.rank_of() is Some,
        forall|u: int|
            0 <= u < n && (#[trigger] g.slot_best(leaf, u)) is Some ==> g.best_of_slots(leaf, n)
                is Some && le(g.slot_best(leaf, u)->0.gain, g.best_of_slots(leaf, n)->0.gain),
    decreases n,
{
    if n > 0 {
        lemma_slots_beat(g, leaf, (n - 1) as nat);
        assert(g.slot_best(leaf, n - 1) is Some ==> g.slot_best(leaf, n - 1)->0.gain.rank_of()
            is Some);
    }
}

/// Among leaves whose splits gain the same, the last one is split.
pub proof fn law_last_leaf_of_equals<W: Wide>(leaves: Seq<Leaf<W>>, n: nat, k: int)
    requires
        n <= leaves.len(),
        pick(leaves, n) is Some,
        pick(leaves, n)->0 < k < n,
        leaves[k].best is Some,
    ensures
        lt(leaves[k].best->0.gain, leaves[pick(leaves, n)->0].best->0.gain),
    decreases n,
{
    lemma_pick(leaves, n);
    lemma_pick(leaves, (n - 1) as nat);
    if k < n - 1 {
        law_last_leaf_of_equals(leaves, (n - 1) as nat, k);
    }
}

} // verus!
