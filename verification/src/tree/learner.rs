use vstd::prelude::*;
use vstd::slice::slice_to_vec;

use crate::config::Config;
use crate::dataset::{codes_of, Bin, BinData, Dataset};
use crate::number::{constant, less, total, Wide};
use crate::tree::bitset::{bitset, bitset_contains};
use crate::tree::growth::{pick, routed_left, Growth, Leaf, Stage};
use crate::tree::histogram::{
    build_histograms_batched, build_histograms_batched_full, chosen_rows, difference, every_row,
    lemma_hist_counts, rows_fit, FeatureHistogram, HistBin,
};
use crate::tree::soundness::{lemma_filter_same, lemma_pick};
use crate::tree::split::{
    find_best_categorical_split, find_best_split_for_feature, found, threshold_leaf, SplitInfo,
};
use crate::tree::{MissingDir, SplitNode, Tree};

verus! {

/// Child pointers below zero encode a leaf index. Zero and above is an
/// internal-node index.
pub fn encode_leaf(idx: usize) -> (r: i32)
    requires
        idx <= i32::MAX,
    ensures
        r == -idx - 1,
{
    -(idx as i32) - 1
}

/// A leaf of the tree under construction.
struct LeafState<W> {
    indices: Vec<u32>,
    sum_grad: W,
    sum_hess: W,
    count: u32,
    /// Histograms parallel to the sampled features.
    histograms: Vec<FeatureHistogram<W>>,
    best_split: Option<SplitInfo<W>>,
    /// Parent node index, or `-1` at the root.
    parent_node_idx: i32,
    is_left_child: bool,
    depth: u32,
    /// Position of this leaf in the leaf values.
    leaf_idx: u32,
}

/// The bins of a list of histograms.
spec fn bins_of<W: Wide>(histograms: Seq<FeatureHistogram<W>>) -> Seq<Seq<HistBin<W>>> {
    Seq::new(histograms.len(), |s: int| histograms[s].bins@)
}

impl<W: Wide> LeafState<W> {
    spec fn leaf(self) -> Leaf<W> {
        Leaf {
            rows: self.indices@,
            sum_grad: self.sum_grad,
            sum_hess: self.sum_hess,
            count: self.count,
            hists: bins_of(self.histograms@),
            best: found(self.best_split),
            parent: self.parent_node_idx,
            is_left: self.is_left_child,
            depth: self.depth,
            index: self.leaf_idx,
        }
    }
}

spec fn leaves_of<W: Wide>(leaves: Seq<LeafState<W>>) -> Seq<Leaf<W>> {
    Seq::new(leaves.len(), |j: int| leaves[j].leaf())
}

/// The columns of the listed features.
fn select_columns<'a, B: Bin>(columns: &'a Vec<Vec<B>>, features: &[usize]) -> (r: Vec<&'a [B]>)
    requires
        forall|s: int| 0 <= s < features@.len() ==> (#[trigger] features@[s]) < columns@.len(),
    ensures
        r@.len() == features@.len(),
        forall|s: int|
            0 <= s < features@.len() ==> (#[trigger] r@[s])@ == columns@[features@[s] as int]@,
{
    let mut r: Vec<&'a [B]> = Vec::with_capacity(features.len());
    let mut s: usize = 0;
    while s < features.len()
        invariant
            s <= features@.len(),
            forall|s: int| 0 <= s < features@.len() ==> (#[trigger] features@[s]) < columns@.len(),
            r@.len() == s,
            forall|t: int| 0 <= t < s ==> (#[trigger] r@[t])@ == columns@[features@[t] as int]@,
        decreases features@.len() - s,
    {
        r.push(columns[features[s]].as_slice());
        s = s + 1;
    }
    r
}

/// Split `parent_indices` into left/right partitions using one feature column.
fn partition_indices<B: Bin>(
    feat_col: &[B],
    parent_indices: &[u32],
    category_set: Option<&[u64]>,
    threshold_bin: u16,
    missing_dir: MissingDir,
) -> (r: (Vec<u32>, Vec<u32>))
    requires
        forall|k: int|
            0 <= k < parent_indices@.len() ==> (#[trigger] parent_indices@[k]) < feat_col@.len(),
    ensures
        ({
            let set = match category_set {
                Some(s) => Some(s@),
                None => None,
            };
            let codes = codes_of(feat_col@);
            let left = |r: u32| routed_left(set, threshold_bin, missing_dir, codes[r as int]);
            &&& r.0@ == parent_indices@.filter(left)
            &&& r.1@ == parent_indices@.filter(|r: u32| !left(r))
        }),
{
    let ghost set = match category_set {
        Some(s) => Some(s@),
        None => None,
    };
    let ghost codes = codes_of(feat_col@);
    let ghost left = |r: u32| routed_left(set, threshold_bin, missing_dir, codes[r as int]);
    let ghost right = |r: u32| !left(r);
    let mut left_out: Vec<u32> = Vec::new();
    let mut right_out: Vec<u32> = Vec::new();
    let mut k: usize = 0;
    proof {
        reveal(Seq::filter);
        assert(parent_indices@.take(0) =~= Seq::<u32>::empty());
    }
    while k < parent_indices.len()
        invariant
            k <= parent_indices@.len(),
            forall|k: int|
                0 <= k < parent_indices@.len() ==> (#[trigger] parent_indices@[k])
                    < feat_col@.len(),
            codes == codes_of(feat_col@),
            set == match category_set {
                Some(s) => Some(s@),
                None => None,
            },
            left == (|r: u32| routed_left(set, threshold_bin, missing_dir, codes[r as int])),
            right == (|r: u32| !left(r)),
            left_out@ == parent_indices@.take(k as int).filter(left),
            right_out@ == parent_indices@.take(k as int).filter(right),
        decreases parent_indices@.len() - k,
    {
        let i: u32 = parent_indices[k];
        let bin: usize = feat_col[i as usize].as_usize();
        let goes: bool = match category_set {
            Some(s) => bitset_contains(s, bin),
            None => if bin == 0 {
                matches!(missing_dir, MissingDir::Left)
            } else {
                bin <= threshold_bin as usize
            },
        };
        proof {
            reveal(Seq::filter);
            assert(bin == codes[i as int]);
            assert(goes == left(i));
            assert(parent_indices@.take(k + 1).drop_last() =~= parent_indices@.take(k as int));
        }
        if goes {
            left_out.push(i);
        } else {
            right_out.push(i);
        }
        k = k + 1;
    }
    assert(parent_indices@.take(parent_indices@.len() as int) =~= parent_indices@);
    (left_out, right_out)
}

/// Record `leaf` for every row in `rows`.
fn assign_leaf(row_to_leaf: &mut Vec<u32>, rows: &Vec<u32>, leaf: u32)
    requires
        forall|k: int| 0 <= k < rows@.len() ==> (#[trigger] rows@[k]) < old(row_to_leaf)@.len(),
    ensures
        final(row_to_leaf)@.len() == old(row_to_leaf)@.len(),
        forall|r: int|
            0 <= r < old(row_to_leaf)@.len() ==> #[trigger] final(row_to_leaf)@[r]
                == if rows@.contains(r as u32) && r <= u32::MAX {
                leaf
            } else {
                old(row_to_leaf)@[r]
            },
{
    let mut k: usize = 0;
    let ghost before = row_to_leaf@;
    while k < rows.len()
        invariant
            k <= rows@.len(),
            row_to_leaf@.len() == before.len(),
            forall|k: int| 0 <= k < rows@.len() ==> (#[trigger] rows@[k]) < before.len(),
            forall|r: int|
                0 <= r < before.len() ==> #[trigger] row_to_leaf@[r] == if (exists|j: int|
                    0 <= j < k && (#[trigger] rows@[j]) == r) {
                    leaf
                } else {
                    before[r]
                },
        decreases rows@.len() - k,
    {
        let ghost prev = row_to_leaf@;
        row_to_leaf.set(rows[k] as usize, leaf);
        proof {
            assert forall|r: int| 0 <= r < before.len() implies #[trigger] row_to_leaf@[r] == if (
            exists|j: int| 0 <= j < k + 1 && (#[trigger] rows@[j]) == r) {
                leaf
            } else {
                before[r]
            } by {
                if r == rows@[k as int] {
                } else {
                    assert(row_to_leaf@[r] == prev[r]);
                    if exists|j: int| 0 <= j < k + 1 && (#[trigger] rows@[j]) == r {
                        let j = choose|j: int| 0 <= j < k + 1 && (#[trigger] rows@[j]) == r;
                        assert(j < k);
                    }
                }
            }
        }
        k = k + 1;
    }
    proof {
        assert forall|r: int| 0 <= r < before.len() implies #[trigger] row_to_leaf@[r]
            == if rows@.contains(r as u32) && r <= u32::MAX {
            leaf
        } else {
            before[r]
        } by {
            if rows@.contains(r as u32) && r <= u32::MAX {
                let j = choose|j: int| 0 <= j < rows@.len() && rows@[j] == r as u32;
                assert(rows@[j] == r);
            }
        }
    }
}

/// Grows single trees on a dataset.
pub struct TreeLearner<'a, W: Wide> {
    config: &'a Config<W>,
    dataset: &'a Dataset<W>,
}

impl<'a, W: Wide> TreeLearner<'a, W> {
    /// What growing a tree on a sample of rows and features is given.
    pub closed spec fn growth(
        &self,
        gradhess: Seq<[W::Narrow; 2]>,
        rows: Seq<u32>,
        features: Seq<usize>,
    ) -> Growth<W> {
        Growth { rules: self.config.rules(), table: self.dataset@, gradhess, rows, features }
    }

    /// The dataset is well formed.
    pub closed spec fn wf(&self) -> bool {
        self.dataset.wf()
    }

    pub fn new(config: &'a Config<W>, dataset: &'a Dataset<W>) -> (learner: Self)
        requires
            dataset.wf(),
        ensures
            learner.wf(),
            forall|gradhess: Seq<[W::Narrow; 2]>, rows: Seq<u32>, features: Seq<usize>|
                #[trigger] learner.growth(gradhess, rows, features) == (Growth {
                    rules: config.rules(),
                    table: dataset@,
                    gradhess,
                    rows,
                    features,
                }),
    {
        TreeLearner { config, dataset }
    }

    fn compute_leaf_value(&self, sum_grad: W, sum_hess: W) -> (r: W)
        ensures
            forall|g: Growth<W>|
                g.rules == self.config.rules() ==> r == #[trigger] g.leaf_value(sum_grad, sum_hess),
    {
        threshold_leaf(sum_grad, sum_hess, self.config.lambda_l1, self.config.lambda_l2)
    }

    /// Empty histograms for the sampled features.
    fn empty_histograms(&self, features: &[usize]) -> (r: Vec<FeatureHistogram<W>>)
        requires
            self.wf(),
            forall|s: int|
                0 <= s < features@.len() ==> (#[trigger] features@[s]) < self.dataset@.codes.len(),
        ensures
            r@.len() == features@.len(),
            forall|s: int|
                0 <= s < features@.len() ==> (#[trigger] r@[s]).bins@.len()
                    == self.dataset@.binnings[features@[s] as int].bins(),
    {
        proof {
            self.dataset.lemma_wf();
        }
        let mut r: Vec<FeatureHistogram<W>> = Vec::with_capacity(features.len());
        let mut s: usize = 0;
        while s < features.len()
            invariant
                s <= features@.len(),
                self.dataset@.valid(),
                forall|s: int|
                    0 <= s < features@.len() ==> (#[trigger] features@[s])
                        < self.dataset@.codes.len(),
                r@.len() == s,
                forall|t: int|
                    0 <= t < s ==> (#[trigger] r@[t]).bins@.len()
                        == self.dataset@.binnings[features@[t] as int].bins(),
            decreases features@.len() - s,
        {
            assert(self.dataset@.binnings[features@[s as int] as int].bins() <= 0x10000);
            r.push(FeatureHistogram::zeros(self.dataset.bin_mapper(features[s]).num_bins()));
            s = s + 1;
        }
        r
    }

    /// The histograms of a list of rows (or of all rows) over the sampled
    /// features.
    fn histograms(
        &self,
        gradhess: &[[W::Narrow; 2]],
        rows: Option<&[u32]>,
        features: &[usize],
        Ghost(g): Ghost<Growth<W>>,
    ) -> (r: Vec<FeatureHistogram<W>>)
        requires
            self.wf(),
            g.valid(),
            g.table == self.dataset@,
            g.gradhess == gradhess@,
            g.features == features@,
            chosen_rows(rows, g.table.rows).len() <= u32::MAX,
            forall|k: int|
                0 <= k < chosen_rows(rows, g.table.rows).len() ==> (#[trigger] chosen_rows(
                    rows,
                    g.table.rows,
                )[k]) < g.table.rows,
        ensures
            bins_of(r@) == g.hists(chosen_rows(rows, g.table.rows)),
    {
        let ghost chosen = chosen_rows(rows, g.table.rows);
        let mut hists: Vec<FeatureHistogram<W>> = self.empty_histograms(features);
        match self.dataset.data() {
            BinData::U8(v) => {
                let cols: Vec<&[u8]> = select_columns(v, features);
                self.fill(gradhess, rows, &cols, &mut hists, Ghost(g));
            },
            BinData::U16(v) => {
                let cols: Vec<&[u16]> = select_columns(v, features);
                self.fill(gradhess, rows, &cols, &mut hists, Ghost(g));
            },
        }
        hists
    }

    fn fill<B: Bin>(
        &self,
        gradhess: &[[W::Narrow; 2]],
        rows: Option<&[u32]>,
        cols: &Vec<&[B]>,
        hists: &mut Vec<FeatureHistogram<W>>,
        Ghost(g): Ghost<Growth<W>>,
    )
        requires
            g.valid(),
            g.gradhess == gradhess@,
            cols@.len() == g.features.len() == old(hists)@.len(),
            forall|s: int|
                #![trigger cols@[s]]
                0 <= s < cols@.len() ==> codes_of(cols@[s]@) == g.codes(s),
            forall|s: int|
                0 <= s < cols@.len() ==> (#[trigger] old(hists)@[s]).bins@.len() == g.bins(s),
            chosen_rows(rows, g.table.rows).len() <= u32::MAX,
            forall|k: int|
                0 <= k < chosen_rows(rows, g.table.rows).len() ==> (#[trigger] chosen_rows(
                    rows,
                    g.table.rows,
                )[k]) < g.table.rows,
        ensures
            bins_of(final(hists)@) == g.hists(chosen_rows(rows, g.table.rows)),
    {
        let ghost chosen = chosen_rows(rows, g.table.rows);
        proof {
            assert forall|s: int| #![trigger cols@[s]] 0 <= s < cols@.len() implies {
                &&& cols@[s]@.len() == gradhess@.len()
                &&& rows_fit(cols@[s]@, chosen, gradhess@.len(), old(hists)@[s].bins@.len())
                &&& forall|r: int|
                    0 <= r < cols@[s]@.len() ==> (#[trigger] cols@[s]@[r]).code()
                        < old(hists)@[s].bins@.len()
            } by {
                let f = g.features[s] as int;
                assert(g.features[s] < g.table.codes.len());
                assert(g.table.codes[f].len() == g.table.rows);
                assert(codes_of(cols@[s]@).len() == cols@[s]@.len());
                assert forall|r: int| 0 <= r < cols@[s]@.len() implies (
                #[trigger] cols@[s]@[r]).code() < old(hists)@[s].bins@.len() by {
                    assert(codes_of(cols@[s]@)[r] == cols@[s]@[r].code());
                    assert(g.table.codes[f][r] < g.table.binnings[f].bins());
                }
            }
        }
        match rows {
            Some(list) => build_histograms_batched(
                cols.as_slice(),
                list,
                gradhess,
                hists.as_mut_slice(),
            ),
            None => build_histograms_batched_full(cols.as_slice(), gradhess, hists.as_mut_slice()),
        }
        assert(bins_of(hists@) =~= g.hists(chosen));
    }

    /// Search all sampled features for the best split of a leaf.
    fn update_best_split(
        &self,
        leaf: &mut LeafState<W>,
        features: &[usize],
        Ghost(g): Ghost<Growth<W>>,
    )
        requires
            self.wf(),
            g.valid(),
            g.rules == self.config.rules(),
            g.table == self.dataset@,
            g.features == features@,
            old(leaf).best_split is None,
            old(leaf).histograms@.len() == features@.len(),
            forall|s: int|
                0 <= s < features@.len() ==> (#[trigger] old(leaf).histograms@[s]).bins@.len()
                    == g.bins(s),
        ensures
            final(leaf).leaf() == g.searched(old(leaf).leaf()),
    {
        let ghost start = leaf.leaf();
        let too_deep: bool = self.config.max_depth > 0 && leaf.depth as i64
            >= self.config.max_depth as i64;
        if (leaf.count as usize) < 2 * self.config.min_data_in_leaf || less(
            leaf.sum_hess,
            constant::<W>(2).times(self.config.min_sum_hessian_in_leaf),
        ) || too_deep {
            return ;
        }
        let mut best: Option<SplitInfo<W>> = None;
        let mut slot: usize = 0;
        while slot < features.len()
            invariant
                slot <= features@.len(),
                self.wf(),
                g.valid(),
                g.rules == self.config.rules(),
                g.table == self.dataset@,
                g.features == features@,
                leaf.leaf() == start,
                leaf.histograms@.len() == features@.len(),
                forall|s: int|
                    0 <= s < features@.len() ==> (#[trigger] leaf.histograms@[s]).bins@.len()
                        == g.bins(s),
                found(best) == g.best_of_slots(start, slot as nat),
            decreases features@.len() - slot,
        {
            let feat: usize = features[slot];
            assert(feat < g.table.codes.len());
            let mapper = self.dataset.bin_mapper(feat);
            let hist: &FeatureHistogram<W> = &leaf.histograms[slot];
            proof {
                assert(g.table.binnings[feat as int].bins() <= 0x10000);
                assert(start.hists[slot as int] == hist.bins@);
            }
            let candidate: Option<SplitInfo<W>> = if mapper.is_categorical() {
                find_best_categorical_split(
                    feat,
                    hist,
                    leaf.sum_grad,
                    leaf.sum_hess,
                    leaf.count,
                    self.config,
                )
            } else {
                find_best_split_for_feature(
                    feat,
                    hist,
                    mapper,
                    leaf.sum_grad,
                    leaf.sum_hess,
                    leaf.count,
                    self.config,
                )
            };
            assert(found(candidate) == g.slot_best(start, slot as int));
            let replace: bool = match (&best, &candidate) {
                (_, None) => false,
                (None, Some(_)) => true,
                (Some(b), Some(c)) => !less(c.gain, b.gain),
            };
            if replace {
                best = candidate;
            }
            slot = slot + 1;
        }
        leaf.best_split = best;
        assert(leaf.leaf() =~= g.searched(start));
    }
}

spec fn stage_of<W: Wide>(tree: Tree<W>, row_to_leaf: Seq<u32>, leaves: Seq<LeafState<W>>) -> Stage<
    W,
> {
    Stage { tree: tree@, row_to_leaf, leaves: leaves_of(leaves) }
}

impl<'a, W: Wide> TreeLearner<'a, W> {
    /// Partition the rows of a leaf by a split.
    fn partition(
        &self,
        rows: &Vec<u32>,
        split: &SplitInfo<W>,
        category_set: &Option<Vec<u64>>,
    ) -> (r: (Vec<u32>, Vec<u32>))
        requires
            self.wf(),
            split.feature < self.dataset@.codes.len(),
            forall|k: int| 0 <= k < rows@.len() ==> (#[trigger] rows@[k]) < self.dataset@.rows,
            split@.left_set() == match *category_set {
                Some(s) => Some(s@),
                None => None,
            },
        ensures
            r.0@ == split@.left_rows(self.dataset@.codes[split.feature as int], rows@),
            r.1@ == split@.right_rows(self.dataset@.codes[split.feature as int], rows@),
    {
        proof {
            self.dataset.lemma_wf();
            assert(self.dataset@.codes[split.feature as int].len() == self.dataset@.rows);
        }
        let ghost codes = self.dataset@.codes[split.feature as int];
        let set: Option<&[u64]> = match category_set {
            Some(s) => Some(s.as_slice()),
            None => None,
        };
        let sides = match self.dataset.data() {
            BinData::U8(v) => {
                assert(codes_of(v@[split.feature as int]@) == codes);
                partition_indices(
                    v[split.feature].as_slice(),
                    rows.as_slice(),
                    set,
                    split.threshold_bin,
                    split.missing_dir,
                )
            },
            BinData::U16(v) => {
                assert(codes_of(v@[split.feature as int]@) == codes);
                partition_indices(
                    v[split.feature].as_slice(),
                    rows.as_slice(),
                    set,
                    split.threshold_bin,
                    split.missing_dir,
                )
            },
        };
        proof {
            let left = |r: u32|
                routed_left(
                    split@.left_set(),
                    split.threshold_bin,
                    split.missing_dir,
                    codes[r as int],
                );
            lemma_filter_same(rows@, left, |r: u32| split@.left(codes[r as int]));
            lemma_filter_same(
                rows@,
                |r: u32| !left(r),
                |r: u32| !split@.left(codes[r as int]),
            );
        }
        sides
    }

    /// `parent - small`, histogram by histogram.
    fn subtract_all(
        &self,
        parent: &Vec<FeatureHistogram<W>>,
        small: &Vec<FeatureHistogram<W>>,
    ) -> (large: Vec<FeatureHistogram<W>>)
        requires
            parent@.len() == small@.len(),
            forall|s: int|
                #![trigger small@[s]]
                0 <= s < small@.len() ==> {
                    &&& parent@[s].bins@.len() == small@[s].bins@.len()
                    &&& forall|b: int|
                        0 <= b < small@[s].bins@.len() ==> (#[trigger] small@[s].bins@[b]).count
                            <= parent@[s].bins@[b].count
                },
        ensures
            bins_of(large@) == Seq::new(
                parent@.len(),
                |s: int| difference(parent@[s].bins@, small@[s].bins@),
            ),
    {
        let mut large: Vec<FeatureHistogram<W>> = Vec::with_capacity(parent.len());
        let mut slot: usize = 0;
        while slot < parent.len()
            invariant
                slot <= parent@.len() == small@.len(),
                forall|s: int|
                    #![trigger small@[s]]
                    0 <= s < small@.len() ==> {
                        &&& parent@[s].bins@.len() == small@[s].bins@.len()
                        &&& forall|b: int|
                            0 <= b < small@[s].bins@.len() ==> (
                            #[trigger] small@[s].bins@[b]).count <= parent@[s].bins@[b].count
                    },
                large@.len() == slot,
                forall|s: int|
                    0 <= s < slot ==> (#[trigger] large@[s]).bins@ == difference(
                        parent@[s].bins@,
                        small@[s].bins@,
                    ),
            decreases parent@.len() - slot,
        {
            let mut out: FeatureHistogram<W> = FeatureHistogram::zeros(parent[slot].num_bins());
            FeatureHistogram::subtract_into(&parent[slot], &small[slot], &mut out);
            large.push(out);
            slot = slot + 1;
        }
        assert(bins_of(large@) =~= Seq::new(
            parent@.len(),
            |s: int| difference(parent@[s].bins@, small@[s].bins@),
        ));
        large
    }

    /// Histograms of the two children. Only the smaller child is built from its
    /// rows; the larger one is the parent minus the smaller.
    fn child_histograms(
        &self,
        gradhess: &[[W::Narrow; 2]],
        parent: &Vec<FeatureHistogram<W>>,
        left: &Vec<u32>,
        right: &Vec<u32>,
        features: &[usize],
        Ghost(g): Ghost<Growth<W>>,
        Ghost(stage): Ghost<Stage<W>>,
        Ghost(i): Ghost<int>,
    ) -> (r: (Vec<FeatureHistogram<W>>, Vec<FeatureHistogram<W>>))
        requires
            self.wf(),
            g.table == self.dataset@,
            g.gradhess == gradhess@,
            g.features == features@,
            g.may_split(stage, i),
            bins_of(parent@) == stage.leaves[i].hists,
            ({
                let leaf = stage.leaves[i];
                let split = leaf.best->0;
                let codes = g.table.codes[split.feature as int];
                &&& left@ == split.left_rows(codes, leaf.rows)
                &&& right@ == split.right_rows(codes, leaf.rows)
            }),
        ensures
            (bins_of(r.0@), bins_of(r.1@)) == g.child_hists(
                stage.leaves[i].hists,
                left@,
                right@,
            ),
    {
        let build_left_first: bool = left.len() <= right.len();
        let small_rows: &Vec<u32> = if build_left_first {
            left
        } else {
            right
        };
        proof {
            g.lemma_side_rows(stage, i);
        }
        let small = self.histograms(gradhess, Some(small_rows.as_slice()), features, Ghost(g));
        proof {
            assert(g.leaf_sound(stage.leaves[i]));
            assert(bins_of(parent@).len() == features@.len());
            assert(bins_of(small@).len() == features@.len());
            assert forall|s: int| #![trigger small@[s]] 0 <= s < small@.len() implies {
                &&& parent@[s].bins@.len() == small@[s].bins@.len()
                &&& forall|b: int|
                    0 <= b < small@[s].bins@.len() ==> (#[trigger] small@[s].bins@[b]).count
                        <= parent@[s].bins@[b].count
            } by {
                g.lemma_side_counts(stage, i, s);
                assert(bins_of(parent@)[s] == parent@[s].bins@);
                assert(bins_of(small@)[s] == small@[s].bins@);
            }
        }
        let large = self.subtract_all(parent, &small);
        proof {
            let p = stage.leaves[i].hists;
            assert(bins_of(large@) =~= Seq::new(
                p.len(),
                |s: int| difference(p[s], g.hists(small_rows@)[s]),
            )) by {
                assert forall|s: int| 0 <= s < p.len() implies #[trigger] bins_of(large@)[s]
                    == difference(p[s], g.hists(small_rows@)[s]) by {
                    assert(bins_of(parent@)[s] == parent@[s].bins@);
                    assert(bins_of(small@)[s] == small@[s].bins@);
                }
            }
        }
        if build_left_first {
            (small, large)
        } else {
            (large, small)
        }
    }

    /// Replace the leaf at `best_idx` by a node with two leaves.
    fn split_leaf(
        &self,
        tree: &mut Tree<W>,
        row_to_leaf: &mut Vec<u32>,
        leaves: &mut Vec<LeafState<W>>,
        best_idx: usize,
        gradhess: &[[W::Narrow; 2]],
        features: &[usize],
        Ghost(g): Ghost<Growth<W>>,
    )
        requires
            self.wf(),
            g.rules == self.config.rules(),
            g.table == self.dataset@,
            g.gradhess == gradhess@,
            g.features == features@,
            g.may_split(stage_of(*old(tree), old(row_to_leaf)@, old(leaves)@), best_idx as int),
        ensures
            stage_of(*final(tree), final(row_to_leaf)@, final(leaves)@) == g.step(
                stage_of(*old(tree), old(row_to_leaf)@, old(leaves)@),
                best_idx as int,
            ),
    {
        let ghost stage = stage_of(*tree, row_to_leaf@, leaves@);
        let ghost i = best_idx as int;
        let ghost picked = stage.leaves[i];
        proof {
            assert(picked == leaves@[i].leaf());
            assert(g.leaf_sound(picked));
            g.lemma_best_split(picked);
            g.lemma_side_rows(stage, i);
            assert(stage.linked(picked));
            assert(picked.depth <= stage.tree.nodes.len());
        }
        let parent: LeafState<W> = leaves.swap_remove(best_idx);
        let split: SplitInfo<W> = match parent.best_split {
            Some(s) => s,
            None => {
                assert(false);
                return ;
            },
        };
        assert(split@ == picked.best->0);
        let category_set: Option<Vec<u64>> = match &split.cat_left_bins {
            Some(bins) => Some(bitset(bins.as_slice())),
            None => None,
        };
        let (left_indices, right_indices) = self.partition(&parent.indices, &split, &category_set);

        let left_leaf_idx: usize = tree.leaf_values.len();
        tree.leaf_values.push(self.compute_leaf_value(split.left_sum_grad, split.left_sum_hess));
        let right_leaf_idx: usize = tree.leaf_values.len();
        tree.leaf_values.push(self.compute_leaf_value(split.right_sum_grad, split.right_sum_hess));
        assign_leaf(row_to_leaf, &left_indices, left_leaf_idx as u32);
        assign_leaf(row_to_leaf, &right_indices, right_leaf_idx as u32);

        let new_node_idx: i32 = tree.nodes.len() as i32;
        let is_categorical: u8 = if category_set.is_some() {
            1
        } else {
            0
        };
        let threshold_bin: u16 = if category_set.is_some() {
            tree.category_sets.len() as u16
        } else {
            split.threshold_bin
        };
        tree.nodes.push(
            SplitNode {
                feature: split.feature as u32,
                threshold_bin,
                missing_dir: split.missing_dir,
                is_categorical,
                left_child: encode_leaf(left_leaf_idx),
                right_child: encode_leaf(right_leaf_idx),
            },
        );
        tree.node_thresholds.push(split.threshold_value);
        tree.node_gains.push(split.gain);
        if let Some(set) = category_set {
            tree.category_sets.push(set);
        }
        if parent.parent_node_idx >= 0 {
            let at: usize = parent.parent_node_idx as usize;
            let node: SplitNode = tree.nodes[at];
            if parent.is_left_child {
                tree.nodes.set(at, SplitNode { left_child: new_node_idx, ..node });
            } else {
                tree.nodes.set(at, SplitNode { right_child: new_node_idx, ..node });
            }
        }
        assert(tree@ =~= g.split_tree(stage, i));

        let (left_hists, right_hists) = self.child_histograms(
            gradhess,
            &parent.histograms,
            &left_indices,
            &right_indices,
            features,
            Ghost(g),
            Ghost(stage),
            Ghost(i),
        );
        let depth: u32 = parent.depth + 1;
        let mut left_leaf: LeafState<W> = LeafState {
            indices: left_indices,
            sum_grad: split.left_sum_grad,
            sum_hess: split.left_sum_hess,
            count: split.left_count,
            histograms: left_hists,
            best_split: None,
            parent_node_idx: new_node_idx,
            is_left_child: true,
            depth,
            leaf_idx: left_leaf_idx as u32,
        };
        let mut right_leaf: LeafState<W> = LeafState {
            indices: right_indices,
            sum_grad: split.right_sum_grad,
            sum_hess: split.right_sum_hess,
            count: split.right_count,
            histograms: right_hists,
            best_split: None,
            parent_node_idx: new_node_idx,
            is_left_child: false,
            depth,
            leaf_idx: right_leaf_idx as u32,
        };
        proof {
            g.lemma_new_leaves(stage, i);
            let new = g.split_leaves(stage, i);
            assert forall|s: int| 0 <= s < features@.len() implies (
            #[trigger] left_leaf.histograms@[s]).bins@.len() == g.bins(s) by {
                assert(new.0.hists[s].len() == g.bins(s));
                assert(bins_of(left_leaf.histograms@)[s] == left_leaf.histograms@[s].bins@);
            }
            assert forall|s: int| 0 <= s < features@.len() implies (
            #[trigger] right_leaf.histograms@[s]).bins@.len() == g.bins(s) by {
                assert(new.1.hists[s].len() == g.bins(s));
                assert(bins_of(right_leaf.histograms@)[s] == right_leaf.histograms@[s].bins@);
            }
            assert(bins_of(left_leaf.histograms@).len() == features@.len());
            assert(bins_of(right_leaf.histograms@).len() == features@.len());
        }
        self.update_best_split(&mut left_leaf, features, Ghost(g));
        self.update_best_split(&mut right_leaf, features, Ghost(g));
        leaves.push(left_leaf);
        leaves.push(right_leaf);
        proof {
            let next = g.step(stage, i);
            assert(leaves_of(leaves@) =~= next.leaves);
            assert(row_to_leaf@ =~= next.row_to_leaf);
        }
    }
}

/// The position of the leaf with the highest gain, the last among equal gains.
fn pick_leaf<W: Wide>(leaves: &Vec<LeafState<W>>) -> (r: Option<usize>)
    ensures
        match r {
            Some(i) => pick(leaves_of(leaves@), leaves@.len()) == Some(i as int),
            None => pick(leaves_of(leaves@), leaves@.len()) is None,
        },
{
    let ghost view = leaves_of(leaves@);
    let mut best: Option<usize> = None;
    let mut i: usize = 0;
    while i < leaves.len()
        invariant
            i <= leaves@.len(),
            view == leaves_of(leaves@),
            match best {
                Some(b) => pick(view, i as nat) == Some(b as int) && b < i
                    && leaves@[b as int].best_split is Some,
                None => pick(view, i as nat) is None,
            },
        decreases leaves@.len() - i,
    {
        assert(view[i as int] == leaves@[i as int].leaf());
        if let Some(split) = &leaves[i].best_split {
            let replace: bool = match best {
                None => true,
                Some(b) => {
                    assert(view[b as int] == leaves@[b as int].leaf());
                    match &leaves[b].best_split {
                        Some(top) => !less(split.gain, top.gain),
                        None => true,
                    }
                },
            };
            if replace {
                best = Some(i);
            }
        }
        i = i + 1;
    }
    best
}

impl<'a, W: Wide> TreeLearner<'a, W> {
    /// The sum of the gradients (`part` 0) or hessians (`part` 1) of the listed
    /// rows.
    fn sum_part(
        &self,
        gradhess: &[[W::Narrow; 2]],
        rows: &[u32],
        part: usize,
        Ghost(g): Ghost<Growth<W>>,
    ) -> (r: W)
        requires
            part < 2,
            g.valid(),
            g.gradhess == gradhess@,
            g.rows == rows@,
        ensures
            r == g.row_total(part as int),
    {
        let ghost terms = Seq::new(
            g.rows.len(),
            |k: int| W::widened(g.gradhess[g.rows[k] as int]@[part as int]),
        );
        let mut sum: W = constant::<W>(0);
        let mut k: usize = 0;
        proof {
            assert(terms.take(0) =~= Seq::empty());
        }
        while k < rows.len()
            invariant
                k <= rows@.len(),
                part < 2,
                g.valid(),
                g.gradhess == gradhess@,
                g.rows == rows@,
                terms == Seq::new(
                    g.rows.len(),
                    |k: int| W::widened(g.gradhess[g.rows[k] as int]@[part as int]),
                ),
                sum == total(terms.take(k as int)),
            decreases rows@.len() - k,
        {
            proof {
                assert(g.rows[k as int] < g.table.rows);
                assert(terms.take(k + 1).drop_last() =~= terms.take(k as int));
            }
            let pair: [W::Narrow; 2] = gradhess[rows[k] as usize];
            sum = sum.plus(W::widen(pair[part]));
            k = k + 1;
        }
        assert(terms.take(k as int) =~= terms);
        sum
    }

    /// Grow a single tree on the given sample of rows and features.
    ///
    /// `gradhess[row] = [grad, hess]` is the packed gradient/hessian pair.
    ///
    /// `is_full` must be `true` only if `row_indices` are all rows in order; in
    /// that case the root histograms are built without going through the
    /// indices.
    ///
    /// Returns the tree and, for every row of the dataset, its leaf. Rows that
    /// are not in `row_indices` stay at leaf 0 (the root prediction).
    pub fn train_one_tree(
        &self,
        gradhess: &[[W::Narrow; 2]],
        row_indices: &[u32],
        feature_indices: &[usize],
        is_full: bool,
    ) -> (r: (Tree<W>, Vec<u32>))
        requires
            self.wf(),
            self.growth(gradhess@, row_indices@, feature_indices@).valid(),
            is_full ==> row_indices@ == every_row(
                self.growth(gradhess@, row_indices@, feature_indices@).table.rows,
            ),
        ensures
            ({
                let g = self.growth(gradhess@, row_indices@, feature_indices@);
                &&& r.0@ == g.grown().tree
                &&& r.1@ == g.grown().row_to_leaf
                &&& g.sound(g.grown())
            }),
    {
        let ghost g = self.growth(gradhess@, row_indices@, feature_indices@);
        let n_rows: usize = self.dataset.n_rows();
        let mut row_to_leaf: Vec<u32> = vec![0u32; n_rows];
        let list: Option<&[u32]> = if is_full {
            None
        } else {
            Some(row_indices)
        };
        let histograms = self.histograms(gradhess, list, feature_indices, Ghost(g));
        let sum_grad: W = self.sum_part(gradhess, row_indices, 0, Ghost(g));
        let sum_hess: W = self.sum_part(gradhess, row_indices, 1, Ghost(g));
        let mut root: LeafState<W> = LeafState {
            indices: slice_to_vec(row_indices),
            sum_grad,
            sum_hess,
            count: row_indices.len() as u32,
            histograms,
            best_split: None,
            parent_node_idx: -1,
            is_left_child: false,
            depth: 0,
            leaf_idx: 0,
        };
        proof {
            assert(root.indices@ =~= row_indices@);
            assert(bins_of(root.histograms@).len() == feature_indices@.len());
            assert forall|s: int| 0 <= s < feature_indices@.len() implies (
            #[trigger] root.histograms@[s]).bins@.len() == g.bins(s) by {
                assert(bins_of(root.histograms@)[s] == root.histograms@[s].bins@);
                g.lemma_rows_coded(g.rows, s);
                lemma_hist_counts::<W>(g.codes(s), g.rows, g.gradhess, g.bins(s));
            }
        }
        self.update_best_split(&mut root, feature_indices, Ghost(g));
        let mut tree: Tree<W> = Tree::constant(self.compute_leaf_value(sum_grad, sum_hess));
        let mut leaves: Vec<LeafState<W>> = vec![root];
        proof {
            let stage = stage_of(tree, row_to_leaf@, leaves@);
            g.lemma_start();
            assert(leaves_of(leaves@) =~= seq![g.root()]);
            assert(stage =~= g.start());
        }

        // Leaf-wise growth: at each step the leaf with the highest gain is split,
        // until there are enough leaves or no split is left.
        while leaves.len() < self.config.num_leaves
            invariant_except_break
                g.grow(
                    stage_of(tree, row_to_leaf@, leaves@),
                    (g.rules.num_leaves + 1 - leaves@.len()) as nat,
                ) == g.grown(),
                leaves@.len() <= g.rules.num_leaves + 1,
            invariant
                self.wf(),
                g.valid(),
                g == self.growth(gradhess@, row_indices@, feature_indices@),
                g.sound(stage_of(tree, row_to_leaf@, leaves@)),
            ensures
                stage_of(tree, row_to_leaf@, leaves@) == g.grown(),
            decreases self.config.num_leaves - leaves@.len(),
        {
            let ghost stage = stage_of(tree, row_to_leaf@, leaves@);
            let best_idx: usize = match pick_leaf(&leaves) {
                Some(i) => i,
                None => break,
            };
            proof {
                lemma_pick(stage.leaves, stage.leaves.len());
                g.lemma_step(stage, best_idx as int);
            }
            self.split_leaf(
                &mut tree,
                &mut row_to_leaf,
                &mut leaves,
                best_idx,
                gradhess,
                feature_indices,
                Ghost(g),
            );
            assert(leaves_of(leaves@).len() == stage.leaves.len() + 1);
        }
        (tree, row_to_leaf)
    }
}

} // verus!
