pub mod bitset;
pub mod categories;
pub mod growing;
pub mod growth;
pub mod histogram;
pub mod laws;
pub mod learner;
pub mod newton;
pub mod soundness;
pub mod split;

use vstd::prelude::*;

use crate::dataset::{codes_of, row_codes, Bin, Dataset};
use crate::number::Wide;
use crate::tree::bitset::{bitset_contains, in_set};

verus! {

/// Which branch missing values take at a numeric split.
#[derive(Debug, Clone, Copy, PartialEq, Eq, Structural)]
pub enum MissingDir {
    Left,
    Right,
}

/// One split of a tree.
#[derive(Debug, Clone, Copy, PartialEq, Eq, Structural)]
pub struct SplitNode {
    pub feature: u32,
    /// Numeric: inclusive left-branch bound in bin-code space. Categorical:
    /// index into [`Tree::category_sets`].
    pub threshold_bin: u16,
    pub missing_dir: MissingDir,
    /// `1` if this is a categorical (subset-membership) split, else `0`.
    pub is_categorical: u8,
    /// Negative encodes a leaf index `idx` as `-idx - 1`; non-negative is an
    /// internal-node index.
    pub left_child: i32,
    pub right_child: i32,
}

/// Whether a value with bin code `code` goes to the left branch of `node`.
pub open spec fn goes_left(node: SplitNode, sets: Seq<Seq<u64>>, code: u16) -> bool {
    if node.is_categorical == 1 {
        in_set(sets[node.threshold_bin as int], code as nat)
    } else if code == 0 {
        node.missing_dir == MissingDir::Left
    } else {
        code <= node.threshold_bin
    }
}

/// The child that a row of bin codes takes at `node`.
pub open spec fn taken_child(node: SplitNode, sets: Seq<Seq<u64>>, row: Seq<u16>) -> i32 {
    if goes_left(node, sets, row[node.feature as int]) {
        node.left_child
    } else {
        node.right_child
    }
}

/// The leaf that a row of bin codes reaches from the node `at`.
pub open spec fn walk(
    nodes: Seq<SplitNode>,
    sets: Seq<Seq<u64>>,
    row: Seq<u16>,
    at: int,
) -> int
    decreases nodes.len() - at,
{
    if 0 <= at < nodes.len() {
        let next = taken_child(nodes[at], sets, row);
        if next < 0 {
            -next - 1
        } else if at < next < nodes.len() {
            walk(nodes, sets, row, next as int)
        } else {
            0
        }
    } else {
        0
    }
}

/// A tree: split nodes with their thresholds and gains, and the values of the
/// leaves.
#[derive(Debug, Clone)]
pub struct Tree<W> {
    pub nodes: Vec<SplitNode>,
    /// Parallel to `nodes`: the raw value of each threshold.
    pub node_thresholds: Vec<W>,
    /// Parallel to `nodes`. Read only by feature-importance reporting.
    pub node_gains: Vec<W>,
    /// Left-branch bin bitsets of the categorical nodes.
    pub category_sets: Vec<Vec<u64>>,
    pub leaf_values: Vec<W>,
}

/// What a [`Tree`] holds.
#[verifier::ext_equal]
pub struct Shape<W> {
    pub nodes: Seq<SplitNode>,
    pub node_thresholds: Seq<W>,
    pub node_gains: Seq<W>,
    pub category_sets: Seq<Seq<u64>>,
    pub leaf_values: Seq<W>,
}

/// A child pointer of node `at` leads to a leaf that exists or to a later node.
pub open spec fn child_valid(child: i32, at: int, nodes: nat, leaves: nat) -> bool {
    if child < 0 {
        -child - 1 < leaves
    } else {
        at < child < nodes
    }
}

impl<W> Shape<W> {
    pub open spec fn node_valid(self, at: int, features: nat) -> bool {
        let node = self.nodes[at];
        &&& node.feature < features
        &&& child_valid(node.left_child, at, self.nodes.len(), self.leaf_values.len())
        &&& child_valid(node.right_child, at, self.nodes.len(), self.leaf_values.len())
        &&& node.is_categorical == 1 ==> node.threshold_bin < self.category_sets.len()
    }

    /// Every child pointer leads forward to a node or to a leaf, so every row
    /// with `features` codes reaches a leaf.
    pub open spec fn valid(self, features: nat) -> bool {
        &&& self.leaf_values.len() >= 1
        &&& self.node_thresholds.len() == self.nodes.len()
        &&& self.node_gains.len() == self.nodes.len()
        &&& forall|i: int|
            0 <= i < self.nodes.len() ==> #[trigger] self.node_valid(i, features)
    }

    /// The leaf that a row of bin codes reaches.
    pub open spec fn leaf_of(self, row: Seq<u16>) -> int {
        walk(self.nodes, self.category_sets, row, 0)
    }

    /// The value that the tree predicts for a row of bin codes.
    pub open spec fn predicts(self, row: Seq<u16>) -> W {
        self.leaf_values[self.leaf_of(row)]
    }
}

/// The contents of a list of bitsets.
pub open spec fn sets_of(sets: Seq<Vec<u64>>) -> Seq<Seq<u64>> {
    Seq::new(sets.len(), |i: int| sets[i]@)
}

impl<W: Wide> View for Tree<W> {
    type V = Shape<W>;

    open spec fn view(&self) -> Shape<W> {
        Shape {
            nodes: self.nodes@,
            node_thresholds: self.node_thresholds@,
            node_gains: self.node_gains@,
            category_sets: sets_of(self.category_sets@),
            leaf_values: self.leaf_values@,
        }
    }
}

/// In a valid tree every walk ends at a leaf that exists.
pub proof fn lemma_walk_in_range<W>(shape: Shape<W>, features: nat, row: Seq<u16>, at: int)
    requires
        shape.valid(features),
        0 <= at,
    ensures
        0 <= walk(shape.nodes, shape.category_sets, row, at) < shape.leaf_values.len(),
    decreases shape.nodes.len() - at,
{
    if at < shape.nodes.len() {
        assert(shape.node_valid(at, features));
        let next = taken_child(shape.nodes[at], shape.category_sets, row);
        if next >= 0 {
            lemma_walk_in_range(shape, features, row, next as int);
        }
    }
}

impl<W: Wide> Tree<W> {
    /// A trivial tree that returns `value` for any input.
    pub fn constant(value: W) -> (tree: Self)
        ensures
            tree@.valid(0),
            forall|row: Seq<u16>| #[trigger] tree@.predicts(row) == value,
            tree@.nodes.len() == 0,
            tree@.category_sets.len() == 0,
            tree@.leaf_values == seq![value],
    {
        Tree {
            nodes: Vec::new(),
            node_thresholds: Vec::new(),
            node_gains: Vec::new(),
            category_sets: Vec::new(),
            leaf_values: vec![value],
        }
    }

    /// Predict for one row of bin codes (`row[feature]` is the bin code for that
    /// feature).
    pub fn predict_on_row_bins(&self, row: &[u16]) -> (r: W)
        requires
            self@.valid(row@.len()),
        ensures
            r == self@.predicts(row@),
    {
        if self.nodes.len() == 0 {
            return self.leaf_values[0];
        }
        let mut at: usize = 0;
        loop
            invariant
                self@.valid(row@.len()),
                0 <= at < self.nodes@.len(),
                walk(self@.nodes, self@.category_sets, row@, at as int) == self@.leaf_of(row@),
            decreases self.nodes@.len() - at,
        {
            let node: SplitNode = self.nodes[at];
            assert(self@.node_valid(at as int, row@.len()));
            let bin: u16 = row[node.feature as usize];
            let left: bool = if node.is_categorical == 1 {
                bitset_contains(self.category_sets[node.threshold_bin as usize].as_slice(), bin as usize)
            } else if bin == 0 {
                matches!(node.missing_dir, MissingDir::Left)
            } else {
                bin <= node.threshold_bin
            };
            let next: i32 = if left {
                node.left_child
            } else {
                node.right_child
            };
            assert(next == taken_child(node, self@.category_sets, row@));
            if next < 0 {
                return self.leaf_values[(-(next + 1)) as usize];
            }
            at = next as usize;
        }
    }

    /// Predict for one row from column slices.
    pub fn predict_on_columns<B: Bin>(&self, columns: &[&[B]], row: usize) -> (r: W)
        requires
            self@.valid(columns@.len()),
            forall|f: int| 0 <= f < columns@.len() ==> row < (#[trigger] columns@[f])@.len(),
        ensures
            r == self@.predicts(row_codes(slices_codes(columns@), row as int)),
    {
        let ghost codes = row_codes(slices_codes(columns@), row as int);
        if self.nodes.len() == 0 {
            return self.leaf_values[0];
        }
        let mut at: usize = 0;
        loop
            invariant
                self@.valid(columns@.len()),
                forall|f: int| 0 <= f < columns@.len() ==> row < (#[trigger] columns@[f])@.len(),
                codes == row_codes(slices_codes(columns@), row as int),
                0 <= at < self.nodes@.len(),
                walk(self@.nodes, self@.category_sets, codes, at as int) == self@.leaf_of(codes),
            decreases self.nodes@.len() - at,
        {
            let node: SplitNode = self.nodes[at];
            assert(self@.node_valid(at as int, columns@.len()));
            let column: &[B] = columns[node.feature as usize];
            let bin: usize = column[row].as_usize();
            assert(bin == codes[node.feature as int]);
            let left: bool = if node.is_categorical == 1 {
                bitset_contains(self.category_sets[node.threshold_bin as usize].as_slice(), bin)
            } else if bin == 0 {
                matches!(node.missing_dir, MissingDir::Left)
            } else {
                bin <= node.threshold_bin as usize
            };
            let next: i32 = if left {
                node.left_child
            } else {
                node.right_child
            };
            assert(next == taken_child(node, self@.category_sets, codes));
            if next < 0 {
                return self.leaf_values[(-(next + 1)) as usize];
            }
            at = next as usize;
        }
    }
}

impl<W: Wide> Tree<W> {
    /// Predict for one row of a dataset from its bin codes.
    pub fn predict_on_dataset(&self, ds: &Dataset<W>, row: usize) -> (r: W)
        requires
            ds.wf(),
            self@.valid(ds@.codes.len()),
            row < ds@.rows,
        ensures
            r == self@.predicts(row_codes(ds@.codes, row as int)),
    {
        let ghost codes = row_codes(ds@.codes, row as int);
        if self.nodes.len() == 0 {
            return self.leaf_values[0];
        }
        let mut at: usize = 0;
        loop
            invariant
                ds.wf(),
                self@.valid(ds@.codes.len()),
                row < ds@.rows,
                codes == row_codes(ds@.codes, row as int),
                0 <= at < self.nodes@.len(),
                walk(self@.nodes, self@.category_sets, codes, at as int) == self@.leaf_of(codes),
            decreases self.nodes@.len() - at,
        {
            let node: SplitNode = self.nodes[at];
            proof {
                assert(self@.node_valid(at as int, ds@.codes.len()));
                ds.lemma_wf();
                assert(ds@.codes[node.feature as int].len() == ds@.rows);
            }
            let bin: u16 = ds.feature_bin(node.feature as usize, row);
            let left: bool = if node.is_categorical == 1 {
                bitset_contains(
                    self.category_sets[node.threshold_bin as usize].as_slice(),
                    bin as usize,
                )
            } else if bin == 0 {
                matches!(node.missing_dir, MissingDir::Left)
            } else {
                bin <= node.threshold_bin
            };
            let next: i32 = if left {
                node.left_child
            } else {
                node.right_child
            };
            assert(next == taken_child(node, self@.category_sets, codes));
            if next < 0 {
                return self.leaf_values[(-(next + 1)) as usize];
            }
            at = next as usize;
        }
    }
}

impl<W: Wide> Tree<W> {
    /// Whether every row with `features` bin codes reaches a leaf.
    pub fn is_valid(&self, features: usize) -> (r: bool)
        ensures
            r == self@.valid(features as nat),
    {
        let n: usize = self.nodes.len();
        if self.leaf_values.len() == 0 || self.node_thresholds.len() != n || self.node_gains.len()
            != n {
            return false;
        }
        let mut i: usize = 0;
        while i < n
            invariant
                i <= n == self.nodes@.len(),
                forall|k: int| 0 <= k < i ==> #[trigger] self@.node_valid(k, features as nat),
            decreases n - i,
        {
            let node: SplitNode = self.nodes[i];
            let fits: bool = (node.feature as usize) < features && self.leads(node.left_child, i)
                && self.leads(node.right_child, i) && (node.is_categorical != 1 || (
            node.threshold_bin as usize) < self.category_sets.len());
            assert(fits == self@.node_valid(i as int, features as nat));
            if !fits {
                return false;
            }
            i = i + 1;
        }
        true
    }

    /// Whether a child pointer of node `at` leads to a leaf or to a later node.
    fn leads(&self, child: i32, at: usize) -> (r: bool)
        ensures
            r == child_valid(child, at as int, self@.nodes.len(), self@.leaf_values.len()),
    {
        if child < 0 {
            ((-(child + 1)) as usize) < self.leaf_values.len()
        } else {
            at < child as usize && (child as usize) < self.nodes.len()
        }
    }
}

/// The bin codes of a list of column slices.
pub open spec fn slices_codes<B: Bin>(columns: Seq<&[B]>) -> Seq<Seq<u16>> {
    Seq::new(columns.len(), |f: int| codes_of(columns[f]@))
}

} // verus!
