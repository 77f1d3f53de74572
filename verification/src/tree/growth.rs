//! What growing one tree means: the leaf with the highest gain is split, again
//! and again, until the tree is large enough or no split is left.

use vstd::prelude::*;

use crate::config::Rules;
use crate::dataset::{row_codes, Table};
use crate::number::{lt, total, whole, Wide};
use crate::tree::bitset::{bitset_of, in_set};
use crate::tree::histogram::{difference, hist_of, HistBin};
use crate::tree::split::{leaf_weight, Query, Split, Sums};
use crate::tree::{MissingDir, Shape, SplitNode};

verus! {

/// What growing one tree is given: the data, the gradients of all rows, the
/// sampled rows and the sampled features.
pub struct Growth<W: Wide> {
    pub rules: Rules<W>,
    pub table: Table<W>,
    pub gradhess: Seq<[W::Narrow; 2]>,
    pub rows: Seq<u32>,
    pub features: Seq<usize>,
}

/// A leaf of a growing tree.
#[verifier::ext_equal]
pub struct Leaf<W> {
    pub rows: Seq<u32>,
    pub sum_grad: W,
    pub sum_hess: W,
    pub count: u32,
    /// One histogram per sampled feature.
    pub hists: Seq<Seq<HistBin<W>>>,
    pub best: Option<Split<W>>,
    /// The node whose child this leaf is, or `-1` for the root.
    pub parent: i32,
    pub is_left: bool,
    pub depth: u32,
    /// Position of this leaf in the leaf values.
    pub index: u32,
}

/// A growing tree.
#[verifier::ext_equal]
pub struct Stage<W> {
    pub tree: Shape<W>,
    pub row_to_leaf: Seq<u32>,
    pub leaves: Seq<Leaf<W>>,
}

/// A value with bin code `code` goes left: in a categorical split the codes in
/// `set`, in a numeric one the codes up to the threshold.
pub open spec fn routed_left(
    set: Option<Seq<u64>>,
    threshold_bin: u16,
    missing_dir: MissingDir,
    code: u16,
) -> bool {
    match set {
        Some(s) => in_set(s, code as nat),
        None => if code == 0 {
            missing_dir == MissingDir::Left
        } else {
            code <= threshold_bin
        },
    }
}

impl<W: Wide> Split<W> {
    /// The bitset of the left categories of a categorical split.
    pub open spec fn left_set(self) -> Option<Seq<u64>> {
        match self.cat_left_bins {
            Some(bins) => Some(bitset_of(bins)),
            None => None,
        }
    }

    /// Whether this split sends a bin code left.
    pub open spec fn left(self, code: u16) -> bool {
        routed_left(self.left_set(), self.threshold_bin, self.missing_dir, code)
    }

    /// The rows of `rows` that go left, in order.
    pub open spec fn left_rows(self, codes: Seq<u16>, rows: Seq<u32>) -> Seq<u32> {
        rows.filter(|r: u32| self.left(codes[r as int]))
    }

    /// The rows of `rows` that go right, in order.
    pub open spec fn right_rows(self, codes: Seq<u16>, rows: Seq<u32>) -> Seq<u32> {
        rows.filter(|r: u32| !self.left(codes[r as int]))
    }

    /// The node of this split, with `sets` bitsets in the tree before it and its
    /// two new leaves at `index` and `index + 1`.
    pub open spec fn node(self, sets: nat, index: nat) -> SplitNode {
        SplitNode {
            feature: self.feature as u32,
            threshold_bin: if self.cat_left_bins is Some {
                sets as u16
            } else {
                self.threshold_bin
            },
            missing_dir: self.missing_dir,
            is_categorical: if self.cat_left_bins is Some {
                1u8
            } else {
                0u8
            },
            left_child: (-(index as int) - 1) as i32,
            right_child: (-(index + 1) - 1) as i32,
        }
    }
}

/// `candidate` if it is a split and `best` is not strictly better.
pub open spec fn last_best<W: Wide>(
    best: Option<Split<W>>,
    candidate: Option<Split<W>>,
) -> Option<Split<W>> {
    match (best, candidate) {
        (_, None) => best,
        (None, Some(_)) => candidate,
        (Some(b), Some(c)) => if lt(c.gain, b.gain) {
            best
        } else {
            candidate
        },
    }
}

/// The position of the leaf with the highest gain among the first `n`, the last
/// among equal gains.
pub open spec fn pick<W: Wide>(leaves: Seq<Leaf<W>>, n: nat) -> Option<int>
    decreases n,
{
    if n == 0 {
        None
    } else {
        let before = pick(leaves, (n - 1) as nat);
        match (before, leaves[n - 1].best) {
            (_, None) => before,
            (None, Some(_)) => Some(n - 1),
            (Some(j), Some(s)) => if lt(s.gain, leaves[j].best->0.gain) {
                before
            } else {
                Some(n - 1)
            },
        }
    }
}

/// Node `at` with one of its children replaced.
pub open spec fn relinked(nodes: Seq<SplitNode>, at: int, left: bool, child: i32) -> Seq<
    SplitNode,
> {
    let node = nodes[at];
    nodes.update(
        at,
        if left {
            SplitNode { left_child: child, ..node }
        } else {
            SplitNode { right_child: child, ..node }
        },
    )
}

impl<W: Wide> Growth<W> {
    /// The data fits together, and the counts fit the types that hold them.
    pub open spec fn valid(self) -> bool {
        &&& self.table.valid()
        &&& self.table.rows <= u32::MAX
        &&& self.table.codes.len() <= u32::MAX
        &&& self.gradhess.len() == self.table.rows
        &&& self.rows.len() <= u32::MAX
        &&& forall|k: int| 0 <= k < self.rows.len() ==> (#[trigger] self.rows[k]) < self.table.rows
        &&& forall|s: int|
            0 <= s < self.features.len() ==> (#[trigger] self.features[s]) < self.table.codes.len()
        &&& 2 * self.rules.min_data_in_leaf <= usize::MAX
        &&& self.rules.min_data_in_leaf <= i64::MAX
        &&& self.rules.num_leaves <= 0x4000_0000
        &&& forall|f: int|
            0 <= f < self.table.binnings.len() && (#[trigger] self.table.binnings[f]).categorical()
                ==> self.rules.num_leaves <= 0x10001
    }

    pub open spec fn codes(self, slot: int) -> Seq<u16> {
        self.table.codes[self.features[slot] as int]
    }

    pub open spec fn bins(self, slot: int) -> nat {
        self.table.binnings[self.features[slot] as int].bins()
    }

    /// The histograms of `rows`, one per sampled feature.
    pub open spec fn hists(self, rows: Seq<u32>) -> Seq<Seq<HistBin<W>>> {
        Seq::new(
            self.features.len(),
            |s: int| hist_of::<W>(self.codes(s), rows, self.gradhess, self.bins(s)),
        )
    }

    /// The sum of the gradients (`part` 0) or hessians (`part` 1) of the sampled
    /// rows.
    pub open spec fn row_total(self, part: int) -> W {
        total(
            Seq::new(
                self.rows.len(),
                |k: int| W::widened(self.gradhess[self.rows[k] as int]@[part]),
            ),
        )
    }

    /// The value of a leaf with the given sums.
    pub open spec fn leaf_value(self, sum_grad: W, sum_hess: W) -> W {
        leaf_weight(sum_grad, sum_hess, self.rules.lambda_l1, self.rules.lambda_l2)
    }

    /// A leaf is large enough, and not too deep, to be split.
    pub open spec fn splittable(self, leaf: Leaf<W>) -> bool {
        &&& leaf.count >= 2 * self.rules.min_data_in_leaf
        &&& !lt(leaf.sum_hess, whole::<W>(2).product_of(self.rules.min_sum_hessian_in_leaf))
        &&& self.rules.max_depth <= 0 || leaf.depth < self.rules.max_depth
    }

    pub open spec fn query(self, leaf: Leaf<W>, slot: int) -> Query<W> {
        Query {
            feature: self.features[slot],
            hist: leaf.hists[slot],
            parent: Sums {
                grad: leaf.sum_grad,
                hess: leaf.sum_hess,
                count: leaf.count as i64,
            },
            rules: self.rules,
        }
    }

    /// The best split of a leaf on one feature: by category subset or by
    /// threshold, as the feature is binned.
    pub open spec fn slot_best(self, leaf: Leaf<W>, slot: int) -> Option<Split<W>> {
        let binning = self.table.binnings[self.features[slot] as int];
        if binning.categorical() {
            self.query(leaf, slot).best_subset()
        } else {
            self.query(leaf, slot).best_numeric(binning.upper_bounds)
        }
    }

    /// The best split of a leaf on the first `n` features, the last among equal
    /// gains.
    pub open spec fn best_of_slots(self, leaf: Leaf<W>, n: nat) -> Option<Split<W>>
        decreases n,
    {
        if n == 0 {
            None
        } else {
            last_best(
                self.best_of_slots(leaf, (n - 1) as nat),
                self.slot_best(leaf, n - 1),
            )
        }
    }

    pub open spec fn best_split(self, leaf: Leaf<W>) -> Option<Split<W>> {
        if self.splittable(leaf) {
            self.best_of_slots(leaf, self.features.len())
        } else {
            None
        }
    }

    /// A leaf with its best split filled in.
    pub open spec fn searched(self, leaf: Leaf<W>) -> Leaf<W> {
        Leaf { best: self.best_split(leaf), ..leaf }
    }

    pub open spec fn root(self) -> Leaf<W> {
        self.searched(
            Leaf {
                rows: self.rows,
                sum_grad: self.row_total(0),
                sum_hess: self.row_total(1),
                count: self.rows.len() as u32,
                hists: self.hists(self.rows),
                best: None,
                parent: (-1) as i32,
                is_left: false,
                depth: 0,
                index: 0,
            },
        )
    }

    /// The tree that is a single leaf.
    pub open spec fn start(self) -> Stage<W> {
        Stage {
            tree: Shape {
                nodes: Seq::empty(),
                node_thresholds: Seq::empty(),
                node_gains: Seq::empty(),
                category_sets: Seq::empty(),
                leaf_values: seq![self.leaf_value(self.row_total(0), self.row_total(1))],
            },
            row_to_leaf: Seq::new(self.table.rows, |r: int| 0u32),
            leaves: seq![self.root()],
        }
    }

    /// The histograms of the two children: the child with fewer rows is counted,
    /// the other is the parent minus that.
    pub open spec fn child_hists(
        self,
        parent: Seq<Seq<HistBin<W>>>,
        left_rows: Seq<u32>,
        right_rows: Seq<u32>,
    ) -> (Seq<Seq<HistBin<W>>>, Seq<Seq<HistBin<W>>>) {
        if left_rows.len() <= right_rows.len() {
            let left = self.hists(left_rows);
            (left, Seq::new(parent.len(), |s: int| difference(parent[s], left[s])))
        } else {
            let right = self.hists(right_rows);
            (Seq::new(parent.len(), |s: int| difference(parent[s], right[s])), right)
        }
    }

    /// The tree after the leaf at position `i` of the leaves is split.
    pub open spec fn split_tree(self, stage: Stage<W>, i: int) -> Shape<W> {
        let leaf = stage.leaves[i];
        let split = leaf.best->0;
        let tree = stage.tree;
        let node = split.node(tree.category_sets.len(), tree.leaf_values.len());
        Shape {
            nodes: if leaf.parent >= 0 {
                relinked(
                    tree.nodes.push(node),
                    leaf.parent as int,
                    leaf.is_left,
                    tree.nodes.len() as i32,
                )
            } else {
                tree.nodes.push(node)
            },
            node_thresholds: tree.node_thresholds.push(split.threshold_value),
            node_gains: tree.node_gains.push(split.gain),
            category_sets: match split.left_set() {
                Some(set) => tree.category_sets.push(set),
                None => tree.category_sets,
            },
            leaf_values: tree.leaf_values.push(
                self.leaf_value(split.left_sum_grad, split.left_sum_hess),
            ).push(self.leaf_value(split.right_sum_grad, split.right_sum_hess)),
        }
    }

    /// The two leaves that replace the leaf at position `i`.
    pub open spec fn split_leaves(self, stage: Stage<W>, i: int) -> (Leaf<W>, Leaf<W>) {
        let leaf = stage.leaves[i];
        let split = leaf.best->0;
        let codes = self.table.codes[split.feature as int];
        let left_rows = split.left_rows(codes, leaf.rows);
        let right_rows = split.right_rows(codes, leaf.rows);
        let hists = self.child_hists(leaf.hists, left_rows, right_rows);
        let index = stage.tree.leaf_values.len();
        let parent = stage.tree.nodes.len() as i32;
        let depth = (leaf.depth + 1) as u32;
        (
            self.searched(
                Leaf {
                    rows: left_rows,
                    sum_grad: split.left_sum_grad,
                    sum_hess: split.left_sum_hess,
                    count: split.left_count,
                    hists: hists.0,
                    best: None,
                    parent,
                    is_left: true,
                    depth,
                    index: index as u32,
                },
            ),
            self.searched(
                Leaf {
                    rows: right_rows,
                    sum_grad: split.right_sum_grad,
                    sum_hess: split.right_sum_hess,
                    count: split.right_count,
                    hists: hists.1,
                    best: None,
                    parent,
                    is_left: false,
                    depth,
                    index: (index + 1) as u32,
                },
            ),
        )
    }

    /// The stage after the leaf at position `i` is split.
    pub open spec fn step(self, stage: Stage<W>, i: int) -> Stage<W> {
        let new = self.split_leaves(stage, i);
        Stage {
            tree: self.split_tree(stage, i),
            row_to_leaf: Seq::new(
                stage.row_to_leaf.len(),
                |r: int|
                    if new.0.rows.contains(r as u32) {
                        new.0.index
                    } else if new.1.rows.contains(r as u32) {
                        new.1.index
                    } else {
                        stage.row_to_leaf[r]
                    },
            ),
            leaves: stage.leaves.update(i, stage.leaves.last()).drop_last().push(new.0).push(new.1),
        }
    }

    /// Up to `fuel` further splits, each of the leaf with the highest gain, as
    /// long as there are fewer than `num_leaves` leaves.
    pub open spec fn grow(self, stage: Stage<W>, fuel: nat) -> Stage<W>
        decreases fuel,
    {
        let best = pick(stage.leaves, stage.leaves.len());
        if fuel == 0 || stage.leaves.len() >= self.rules.num_leaves || best is None {
            stage
        } else {
            self.grow(self.step(stage, best->0), (fuel - 1) as nat)
        }
    }

    /// The fully grown tree.
    pub open spec fn grown(self) -> Stage<W> {
        self.grow(self.start(), self.rules.num_leaves as nat)
    }

    /// The bin codes of a row.
    pub open spec fn row(self, r: int) -> Seq<u16> {
        row_codes(self.table.codes, r)
    }
}

} // verus!
