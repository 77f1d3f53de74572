//! What holds of every tree that the learner grows.

use vstd::prelude::*;

use crate::dataset::laws::law_bin_interval;
use crate::dataset::Binning;
use crate::number::{le, lt, Wide};
use crate::tree::growth::{pick, Growth, Leaf, Stage};
use crate::tree::histogram::{counts_rows, difference};
use crate::tree::soundness::{child_of, lemma_pick, visits};
use crate::tree::split::{Query, Split};
use crate::tree::{taken_child, walk, MissingDir, Shape, SplitNode};

verus! {

/// A sampled row is recorded at the leaf that the finished tree leads its bin
/// codes to.
pub proof fn law_recorded_leaf<W: Wide>(g: Growth<W>, r: u32)
    requires
        g.valid(),
        g.rows.contains(r),
    ensures
        g.grown().tree.leaf_of(g.row(r as int)) == g.grown().row_to_leaf[r as int],
{
    g.lemma_start();
    g.lemma_grow(g.start(), g.rules.num_leaves as nat);
}

/// A row that was not sampled stays recorded at leaf 0.
pub proof fn law_unsampled_row<W: Wide>(g: Growth<W>, r: int)
    requires
        g.valid(),
        0 <= r < g.table.rows,
        !g.rows.contains(r as u32),
    ensures
        g.grown().row_to_leaf[r] == 0,
{
    g.lemma_start();
    g.lemma_grow(g.start(), g.rules.num_leaves as nat);
}

/// A tree has one leaf more than it has nodes, and no more than `num_leaves`
/// leaves (but always one).
pub proof fn law_tree_size<W: Wide>(g: Growth<W>)
    requires
        g.valid(),
    ensures
        g.grown().leaves.len() == g.grown().tree.nodes.len() + 1,
        g.grown().leaves.len() <= g.rules.num_leaves || g.grown().leaves.len() == 1,
        g.grown().tree.valid(g.table.codes.len()),
{
    g.lemma_start();
    g.lemma_grow(g.start(), g.rules.num_leaves as nat);
}

/// Node `at` of a tree names node `to` as one of its children.
pub open spec fn names(nodes: Seq<SplitNode>, at: int, left: bool, to: int) -> bool {
    0 <= at < nodes.len() && child_of(nodes[at], left) == to
}

/// Some node with a smaller index names node `to`.
pub open spec fn named_before(nodes: Seq<SplitNode>, to: int) -> bool {
    exists|at: int, left: bool| at < to && #[trigger] names(nodes, at, left, to)
}

/// No two child pointers are the same. Each leads to a later node or to a leaf,
/// but never to leaf 0. Every node but the first is named by one before it.
pub open spec fn linked_once(nodes: Seq<SplitNode>) -> bool {
    &&& forall|a: int, l: bool, b: int, m: bool|
        #![trigger child_of(nodes[a], l), child_of(nodes[b], m)]
        0 <= a < nodes.len() && 0 <= b < nodes.len() && (a != b || l != m) ==> child_of(
            nodes[a],
            l,
        ) != child_of(nodes[b], m)
    &&& forall|a: int, l: bool|
        #![trigger child_of(nodes[a], l)]
        0 <= a < nodes.len() ==> child_of(nodes[a], l) < -1 || a < child_of(nodes[a], l)
            < nodes.len()
    &&& forall|n: int| 0 < n < nodes.len() ==> #[trigger] named_before(nodes, n)
}

proof fn lemma_step_links<W: Wide>(g: Growth<W>, stage: Stage<W>, i: int)
    requires
        g.may_split(stage, i),
        linked_once(stage.tree.nodes),
    ensures
        linked_once(g.step(stage, i).tree.nodes),
{
    let leaf = stage.leaves[i];
    let old_nodes = stage.tree.nodes;
    let new_nodes = g.step(stage, i).tree.nodes;
    let k = old_nodes.len() as int;
    let index = stage.tree.leaf_values.len();
    let row = Seq::<u16>::empty();
    g.lemma_new_node(stage, i, row);
    assert(stage.linked(leaf));
    assert forall|a: int, l: bool| 0 <= a < k implies {
        &&& #[trigger] child_of(new_nodes[a], l) == if a == leaf.parent && l == leaf.is_left {
            k
        } else {
            child_of(old_nodes[a], l) as int
        }
        &&& child_of(old_nodes[a], l) < k
        &&& -child_of(old_nodes[a], l) - 1 < index
    } by {
        g.lemma_old_node(stage, i, a, l, row);
        assert(stage.tree.node_valid(a, g.table.codes.len()));
    }
    assert forall|a: int, l: bool, b: int, m: bool|
        #![trigger child_of(new_nodes[a], l), child_of(new_nodes[b], m)]
        0 <= a < new_nodes.len() && 0 <= b < new_nodes.len() && (a != b || l
            != m) implies child_of(new_nodes[a], l) != child_of(new_nodes[b], m) by {
        if a < k && b < k {
            assert(child_of(old_nodes[a], l) != child_of(old_nodes[b], m));
        }
    }
    assert forall|n: int| 0 < n < new_nodes.len() implies #[trigger] named_before(
        new_nodes,
        n,
    ) by {
        if n < k {
            assert(named_before(old_nodes, n));
            let (a, l) = choose|a: int, l: bool| a < n && #[trigger] names(old_nodes, a, l, n);
            assert(child_of(new_nodes[a], l) == n);
            assert(names(new_nodes, a, l, n));
        } else {
            assert(child_of(new_nodes[leaf.parent as int], leaf.is_left) == k);
            assert(names(new_nodes, leaf.parent as int, leaf.is_left, n));
        }
    }
}

proof fn lemma_grow_links<W: Wide>(g: Growth<W>, stage: Stage<W>, fuel: nat)
    requires
        g.valid(),
        g.sound(stage),
        linked_once(stage.tree.nodes),
    ensures
        linked_once(g.grow(stage, fuel).tree.nodes),
    decreases fuel,
{
    let best = pick(stage.leaves, stage.leaves.len());
    lemma_pick(stage.leaves, stage.leaves.len());
    if fuel > 0 && stage.leaves.len() < g.rules.num_leaves && best is Some {
        g.lemma_step(stage, best->0);
        lemma_step_links(g, stage, best->0);
        lemma_grow_links(g, g.step(stage, best->0), (fuel - 1) as nat);
    }
}

/// A grown tree is a tree: every node but the first is named by exactly one child
/// pointer, that of a node before it. The pointers to leaves are distinct, and lead
/// to leaves from 1 on.
pub proof fn law_linked_once<W: Wide>(g: Growth<W>)
    requires
        g.valid(),
    ensures
        linked_once(g.grown().tree.nodes),
{
    g.lemma_start();
    lemma_grow_links(g, g.start(), g.rules.num_leaves as nat);
}

/// Every walk in a sound tree ends at one of its leaves.
proof fn lemma_walk_ends<W: Wide>(g: Growth<W>, stage: Stage<W>, row: Seq<u16>, at: int) -> (j: int)
    requires
        g.links_sound(stage),
        0 <= at < stage.tree.nodes.len(),
    ensures
        0 <= j < stage.leaves.len(),
        stage.leaves[j].index == walk(stage.tree.nodes, stage.tree.category_sets, row, at),
    decreases stage.tree.nodes.len() - at,
{
    let next = taken_child(stage.tree.nodes[at], stage.tree.category_sets, row);
    assert(stage.tree.node_valid(at, g.table.codes.len()));
    if next < 0 {
        let left = next == stage.tree.nodes[at].left_child;
        assert(child_of(stage.tree.nodes[at], left) == next);
        assert(stage.owned(at, left));
        let j = choose|j: int|
            0 <= j < stage.leaves.len() && (#[trigger] stage.leaves[j]).parent == at
                && stage.leaves[j].is_left == left;
        assert(stage.linked(stage.leaves[j]));
        j
    } else {
        lemma_walk_ends(g, stage, row, next as int)
    }
}

/// With a positive `max_depth`, no row passes more than `max_depth` nodes.
pub proof fn law_depth<W: Wide>(g: Growth<W>, row: Seq<u16>)
    requires
        g.valid(),
        g.rules.max_depth > 0,
    ensures
        visits(g.grown().tree.nodes, g.grown().tree.category_sets, row, 0) <= g.rules.max_depth,
{
    let stage = g.grown();
    g.lemma_start();
    g.lemma_grow(g.start(), g.rules.num_leaves as nat);
    if stage.tree.nodes.len() > 0 {
        let j = lemma_walk_ends(g, stage, row, 0);
        assert(g.leaf_sound(stage.leaves[j]));
        assert(stage.tree.leaf_of(row) == stage.leaves[j].index);
    }
}

/// Every split that is found leaves at least `min_data_in_leaf` rows and
/// `min_sum_hessian_in_leaf` on both sides, gains more than
/// `min_gain_to_split`, and carries the true sizes of its sides.
pub proof fn law_split_limits<W: Wide>(g: Growth<W>, leaf: Leaf<W>)
    requires
        g.valid(),
        g.leaf_sound(leaf),
    ensures
        leaf.best matches Some(split) ==> {
            &&& split.within_limits(g.rules)
            &&& split.counts_match(g.table.codes[split.feature as int], leaf.rows)
        },
{
    g.lemma_best_split(leaf);
}

/// Every node of a tree gains more than `least`.
pub open spec fn gains_exceed<W: Wide>(tree: Shape<W>, least: W) -> bool {
    &&& tree.node_gains.len() == tree.nodes.len()
    &&& forall|k: int|
        0 <= k < tree.node_gains.len() ==> !le(#[trigger] tree.node_gains[k], least)
}

proof fn lemma_grow_gains<W: Wide>(g: Growth<W>, stage: Stage<W>, fuel: nat)
    requires
        g.valid(),
        g.sound(stage),
        gains_exceed(stage.tree, g.rules.min_gain_to_split),
    ensures
        gains_exceed(g.grow(stage, fuel).tree, g.rules.min_gain_to_split),
    decreases fuel,
{
    let best = pick(stage.leaves, stage.leaves.len());
    lemma_pick(stage.leaves, stage.leaves.len());
    if fuel > 0 && stage.leaves.len() < g.rules.num_leaves && best is Some {
        let i = best->0;
        g.lemma_step(stage, i);
        assert(g.leaf_sound(stage.leaves[i]));
        g.lemma_best_split(stage.leaves[i]);
        lemma_grow_gains(g, g.step(stage, i), (fuel - 1) as nat);
    }
}

/// Every node of a grown tree gains more than `min_gain_to_split`.
pub proof fn law_node_gains<W: Wide>(g: Growth<W>)
    requires
        g.valid(),
    ensures
        gains_exceed(g.grown().tree, g.rules.min_gain_to_split),
{
    g.lemma_start();
    lemma_grow_gains(g, g.start(), g.rules.num_leaves as nat);
}

/// Every leaf but a lone root has enough rows.
pub open spec fn leaves_filled<W: Wide>(g: Growth<W>, stage: Stage<W>) -> bool {
    forall|j: int|
        0 <= j < stage.leaves.len() && (#[trigger] stage.leaves[j]).parent >= 0
            ==> stage.leaves[j].rows.len() >= g.rules.min_data_in_leaf
}

proof fn lemma_grow_filled<W: Wide>(g: Growth<W>, stage: Stage<W>, fuel: nat)
    requires
        g.valid(),
        g.sound(stage),
        leaves_filled(g, stage),
    ensures
        leaves_filled(g, g.grow(stage, fuel)),
    decreases fuel,
{
    let best = pick(stage.leaves, stage.leaves.len());
    lemma_pick(stage.leaves, stage.leaves.len());
    if fuel > 0 && stage.leaves.len() < g.rules.num_leaves && best is Some {
        let i = best->0;
        let next = g.step(stage, i);
        g.lemma_step(stage, i);
        assert(g.leaf_sound(stage.leaves[i]));
        g.lemma_best_split(stage.leaves[i]);
        let m = stage.leaves.len() - 1;
        assert forall|j: int|
            0 <= j < next.leaves.len() && (#[trigger] next.leaves[j]).parent
                >= 0 implies next.leaves[j].rows.len() >= g.rules.min_data_in_leaf by {
            if j < m {
                let from = if j == i {
                    m
                } else {
                    j
                };
                assert(next.leaves[j] == stage.leaves[from]);
            }
        }
        lemma_grow_filled(g, next, (fuel - 1) as nat);
    }
}

/// Every leaf of a tree with more than one leaf holds at least
/// `min_data_in_leaf` of the sampled rows.
pub proof fn law_leaf_rows<W: Wide>(g: Growth<W>)
    requires
        g.valid(),
    ensures
        leaves_filled(g, g.grown()),
        forall|j: int|
            0 <= j < g.grown().leaves.len() ==> (#[trigger] g.grown().leaves[j]).count
                == g.grown().leaves[j].rows.len(),
{
    g.lemma_start();
    lemma_grow_filled(g, g.start(), g.rules.num_leaves as nat);
    g.lemma_grow(g.start(), g.rules.num_leaves as nat);
}

/// The leaf that is split next has the highest gain, as long as every gain
/// compares with every other.
pub proof fn law_pick_is_best<W: Wide>(leaves: Seq<Leaf<W>>, n: nat, k: int)
    requires
        n <= leaves.len(),
        0 <= k < n,
        leaves[k].best is Some,
        forall|j: int|
            0 <= j < n && (#[trigger] leaves[j]).best is Some
                ==> leaves[j].best->0.gain.rank_of() is Some,
    ensures
        pick(leaves, n) matches Some(j) && le(leaves[k].best->0.gain, leaves[j].best->0.gain),
    decreases n,
{
    lemma_pick(leaves, n);
    lemma_pick(leaves, (n - 1) as nat);
    if k < n - 1 {
        law_pick_is_best(leaves, (n - 1) as nat, k);
        let j = pick(leaves, (n - 1) as nat)->0;
        assert(leaves[j].best->0.gain.rank_of() is Some);
        assert(leaves[n - 1].best is Some ==> leaves[n - 1].best->0.gain.rank_of() is Some);
    } else {
        match pick(leaves, (n - 1) as nat) {
            None => {},
            Some(j) => {
                assert(leaves[j].best->0.gain.rank_of() is Some);
            },
        }
    }
}

/// Growth ends only when there are `num_leaves` leaves or no leaf has a split
/// left that is worth making.
pub proof fn law_growth_ends<W: Wide>(g: Growth<W>, j: int)
    requires
        g.valid(),
        0 <= j < g.grown().leaves.len() < g.rules.num_leaves,
    ensures
        g.grown().leaves[j].best is None,
{
    g.lemma_start();
    lemma_grow_ends(g, g.start(), g.rules.num_leaves as nat);
    lemma_pick_none(g.grown().leaves, g.grown().leaves.len(), j);
}

proof fn lemma_grow_ends<W: Wide>(g: Growth<W>, stage: Stage<W>, fuel: nat)
    requires
        g.valid(),
        g.sound(stage),
        fuel + stage.leaves.len() >= g.rules.num_leaves,
    ensures
        ({
            let end = g.grow(stage, fuel);
            end.leaves.len() >= g.rules.num_leaves || pick(end.leaves, end.leaves.len()) is None
        }),
    decreases fuel,
{
    let best = pick(stage.leaves, stage.leaves.len());
    lemma_pick(stage.leaves, stage.leaves.len());
    if fuel > 0 && stage.leaves.len() < g.rules.num_leaves && best is Some {
        g.lemma_step(stage, best->0);
        lemma_grow_ends(g, g.step(stage, best->0), (fuel - 1) as nat);
    }
}

proof fn lemma_pick_none<W: Wide>(leaves: Seq<Leaf<W>>, n: nat, j: int)
    requires
        pick(leaves, n) is None,
        0 <= j < n,
    ensures
        leaves[j].best is None,
    decreases n,
{
    if j < n - 1 {
        lemma_pick_none(leaves, (n - 1) as nat, j);
    }
}

/// Only the smaller child of a split is counted from its rows; taking it from the
/// parent leaves, in every bin, the number of rows of the larger child.
pub proof fn law_sibling_by_subtraction<W: Wide>(g: Growth<W>, stage: Stage<W>, i: int, s: int)
    requires
        g.may_split(stage, i),
        0 <= s < g.features.len(),
    ensures
        ({
            let (left, right) = g.split_leaves(stage, i);
            &&& counts_rows(left.hists[s], g.codes(s), left.rows)
            &&& counts_rows(right.hists[s], g.codes(s), right.rows)
            &&& if left.rows.len() <= right.rows.len() {
                right.hists[s] == difference(stage.leaves[i].hists[s], g.hists(left.rows)[s])
            } else {
                left.hists[s] == difference(stage.leaves[i].hists[s], g.hists(right.rows)[s])
            }
        }),
{
    g.lemma_new_leaves(stage, i);
    assert(g.leaf_sound(stage.leaves[i]));
    let (left, right) = g.split_leaves(stage, i);
    assert(left.hists[s].len() == g.bins(s));
    assert(right.hists[s].len() == g.bins(s));
}

// The best split is the best.

/// A found split at least as good as another.
pub open spec fn beats<W: Wide>(best: Option<Split<W>>, other: Split<W>) -> bool {
    best matches Some(b) && le(other.gain, b.gain)
}

/// The gain of a split, if there is one, compares with others.
pub open spec fn comparable<W: Wide>(split: Option<Split<W>>) -> bool {
    split matches Some(s) ==> s.gain.rank_of() is Some
}

proof fn lemma_scan_best<W: Wide>(
    q: Query<W>,
    bounds: Seq<W>,
    dir: MissingDir,
    upto: nat,
    start: Option<Split<W>>,
)
    requires
        comparable(start),
        forall|t: nat| comparable(#[trigger] q.numeric_candidate(bounds, dir, t)),
    ensures
        comparable(q.scan(bounds, dir, upto, start)),
        start matches Some(s) ==> beats(q.scan(bounds, dir, upto, start), s),
        forall|t: nat|
            1 <= t < upto && (#[trigger] q.numeric_candidate(bounds, dir, t)) is Some ==> beats(
                q.scan(bounds, dir, upto, start),
                q.numeric_candidate(bounds, dir, t)->0,
            ),
    decreases upto,
{
    if upto > 1 {
        lemma_scan_best(q, bounds, dir, (upto - 1) as nat, start);
        assert(comparable(q.numeric_candidate(bounds, dir, (upto - 1) as nat)));
    }
}

/// The threshold split that is found gains at least as much as any other, with
/// missing values on either side.
pub proof fn law_best_threshold<W: Wide>(q: Query<W>, bounds: Seq<W>, dir: MissingDir, t: nat)
    requires
        1 <= t < q.hist.len() - 1,
        q.numeric_candidate(bounds, dir, t) is Some,
        forall|d: MissingDir, u: nat| comparable(#[trigger] q.numeric_candidate(bounds, d, u)),
    ensures
        beats(q.best_numeric(bounds), q.numeric_candidate(bounds, dir, t)->0),
{
    let n = (q.hist.len() - 1) as nat;
    lemma_scan_best(q, bounds, MissingDir::Left, n, None);
    let left = q.scan(bounds, MissingDir::Left, n, None);
    lemma_scan_best(q, bounds, MissingDir::Right, n, left);
    if dir == MissingDir::Left {
        assert(beats(left, q.numeric_candidate(bounds, dir, t)->0));
    }
}

proof fn lemma_alone_best<W: Wide>(q: Query<W>, bins: Seq<usize>, n: nat)
    requires
        forall|b: usize| comparable(#[trigger] q.subset_candidate(seq![b], q.alone(b))),
    ensures
        comparable(q.best_alone(bins, n)),
        forall|k: int|
            #![trigger bins[k]]
            0 <= k < n && q.subset_candidate(seq![bins[k]], q.alone(bins[k])) is Some ==> beats(
                q.best_alone(bins, n),
                q.subset_candidate(seq![bins[k]], q.alone(bins[k]))->0,
            ),
    decreases n,
{
    if n > 0 {
        lemma_alone_best(q, bins, (n - 1) as nat);
        let b = bins[n - 1];
        assert(comparable(q.subset_candidate(seq![b], q.alone(b))));
    }
}

/// With few categories, the split that is found gains at least as much as any
/// single category against the rest.
pub proof fn law_best_single_category<W: Wide>(q: Query<W>, k: int)
    requires
        2 <= q.used().len() <= q.rules.max_cat_to_onehot,
        0 <= k < q.used().len(),
        q.subset_candidate(seq![q.used()[k]], q.alone(q.used()[k])) is Some,
        forall|b: usize| comparable(#[trigger] q.subset_candidate(seq![b], q.alone(b))),
    ensures
        beats(
            q.best_subset(),
            q.subset_candidate(seq![q.used()[k]], q.alone(q.used()[k]))->0,
        ),
{
    lemma_alone_best(q, q.used(), q.used().len());
}

/// The split that sends the first `k` of `bins` left.
pub open spec fn prefix_candidate<W: Wide>(q: Query<W>, bins: Seq<usize>, k: int) -> Option<
    Split<W>,
> {
    q.subset_candidate(bins.take(k), q.together(bins.take(k)))
}

proof fn lemma_prefix_best<W: Wide>(
    q: Query<W>,
    bins: Seq<usize>,
    n: nat,
    start: Option<Split<W>>,
)
    requires
        comparable(start),
        forall|k: int| comparable(#[trigger] prefix_candidate(q, bins, k)),
    ensures
        comparable(q.best_prefix(bins, n, start)),
        start matches Some(s) ==> beats(q.best_prefix(bins, n, start), s),
        forall|k: int|
            1 <= k <= n && (#[trigger] prefix_candidate(q, bins, k)) is Some ==> beats(
                q.best_prefix(bins, n, start),
                prefix_candidate(q, bins, k)->0,
            ),
    decreases n,
{
    if n > 0 {
        lemma_prefix_best(q, bins, (n - 1) as nat, start);
        assert(comparable(prefix_candidate(q, bins, n as int)));
    }
}

/// With many categories, the split that is found gains at least as much as any
/// group of up to `max_cat_threshold` categories taken from either end of their
/// order by gradient ratio.
pub proof fn law_best_category_group<W: Wide>(q: Query<W>, k: int, from_low: bool)
    requires
        q.used().len() >= 2,
        q.used().len() > q.rules.max_cat_to_onehot,
        1 <= k <= q.scan_limit(q.used().len()),
        ({
            let low = q.ranked(q.used());
            let bins = if from_low {
                low
            } else {
                low.reverse()
            };
            &&& prefix_candidate(q, bins, k) is Some
            &&& forall|m: int| comparable(#[trigger] prefix_candidate(q, low, m))
            &&& forall|m: int| comparable(#[trigger] prefix_candidate(q, low.reverse(), m))
        }),
    ensures
        ({
            let low = q.ranked(q.used());
            let bins = if from_low {
                low
            } else {
                low.reverse()
            };
            beats(q.best_subset(), prefix_candidate(q, bins, k)->0)
        }),
{
    let low = q.ranked(q.used());
    let n = q.scan_limit(q.used().len());
    lemma_prefix_best(q, low, n, None);
    lemma_prefix_best(q, low.reverse(), n, q.best_prefix(low, n, None));
}

proof fn lemma_slots_best<W: Wide>(g: Growth<W>, leaf: Leaf<W>, n: nat)
    requires
        forall|s: int| comparable(#[trigger] g.slot_best(leaf, s)),
    ensures
        comparable(g.best_of_slots(leaf, n)),
        forall|s: int|
            0 <= s < n && (#[trigger] g.slot_best(leaf, s)) is Some ==> beats(
                g.best_of_slots(leaf, n),
                g.slot_best(leaf, s)->0,
            ),
    decreases n,
{
    if n > 0 {
        lemma_slots_best(g, leaf, (n - 1) as nat);
        assert(comparable(g.slot_best(leaf, n - 1)));
    }
}

/// The split of a leaf gains at least as much as the best split on any sampled
/// feature.
pub proof fn law_best_feature<W: Wide>(g: Growth<W>, leaf: Leaf<W>, s: int)
    requires
        g.splittable(leaf),
        0 <= s < g.features.len(),
        g.slot_best(leaf, s) is Some,
        forall|u: int| comparable(#[trigger] g.slot_best(leaf, u)),
    ensures
        beats(g.best_split(leaf), g.slot_best(leaf, s)->0),
{
    lemma_slots_best(g, leaf, g.features.len());
}

// Thresholds on raw values.

/// A split whose threshold is a bound of the feature.
spec fn at_bound<W: Wide>(split: Split<W>, bounds: Seq<W>) -> bool {
    &&& 1 <= split.threshold_bin <= bounds.len()
    &&& split.threshold_value == bounds[split.threshold_bin - 1]
    &&& split.cat_left_bins is None
}

proof fn lemma_scan_bound<W: Wide>(
    q: Query<W>,
    bounds: Seq<W>,
    dir: MissingDir,
    upto: nat,
    start: Option<Split<W>>,
)
    requires
        upto <= bounds.len() + 1 <= 0xffff,
        start matches Some(s) ==> at_bound(s, bounds),
    ensures
        q.scan(bounds, dir, upto, start) matches Some(s) ==> at_bound(s, bounds),
    decreases upto,
{
    if upto > 1 {
        lemma_scan_bound(q, bounds, dir, (upto - 1) as nat, start);
    }
}

/// The raw threshold that a numeric split carries agrees with its bin threshold:
/// a finite value is at most the raw threshold exactly when its bin code goes
/// left.
pub proof fn law_raw_threshold<W: Wide>(q: Query<W>, binning: Binning<W>, v: W)
    requires
        binning.valid(),
        !binning.categorical(),
        q.hist.len() == binning.bins(),
        v.finite(),
        q.best_numeric(binning.upper_bounds) is Some,
    ensures
        ({
            let split = q.best_numeric(binning.upper_bounds)->0;
            le(v, split.threshold_value) <==> split.left(binning.code_of(v))
        }),
{
    let bounds = binning.upper_bounds;
    let n = (q.hist.len() - 1) as nat;
    lemma_scan_bound(q, bounds, MissingDir::Left, n, None);
    lemma_scan_bound(q, bounds, MissingDir::Right, n, q.scan(bounds, MissingDir::Left, n, None));
    let split = q.best_numeric(bounds)->0;
    let t = split.threshold_bin;
    let c = binning.code_of(v);
    v.finite_compares();
    law_bin_interval(binning, v);
    assert(le(bounds[t - 1], bounds[t - 1]));
    if c <= t {
        assert(le(v, bounds[c - 1]));
        assert(le(bounds[c - 1], bounds[t - 1]));
    } else {
        assert(lt(bounds[c - 2], v));
        assert(le(bounds[t - 1], bounds[c - 2]));
    }
}

} // verus!
