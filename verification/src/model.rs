use vstd::prelude::*;
use vstd::slice::slice_subrange;

use crate::config::is_fraction;
use crate::dataset::builder::encoded;
use crate::dataset::{binnings_of, row_codes, BinMapper, Binning, Dataset};
use crate::feature::{
    binned_row, binned_rows, flat, lemma_flat, row_values, texts_of, Datum, FeatureBuilder,
};
use crate::loss::{law_sigmoid_within_one, logloss_of, sigmoid, sigmoid_of};
use crate::number::{constant, le, lt, repeated, whole, Wide};
use crate::tree::{lemma_walk_in_range, Shape, SplitNode, Tree};

verus! {

/// A trained model: trees plus boosting metadata.
#[derive(Debug, Clone)]
pub struct Model<W> {
    pub(crate) init_score: W,
    pub(crate) learning_rate: W,
    pub(crate) n_features: usize,
    /// Feature names in index order, copied from the training builder.
    pub(crate) feature_names: Vec<String>,
    /// The thresholds in the trees are bin codes of these mappers.
    pub(crate) bin_mappers: Vec<BinMapper<W>>,
    pub(crate) trees: Vec<Tree<W>>,
}

/// What a [`Model`] holds.
#[verifier::ext_equal]
pub struct Ensemble<W> {
    pub init_score: W,
    pub learning_rate: W,
    pub names: Seq<Seq<char>>,
    pub binnings: Seq<Binning<W>>,
    pub trees: Seq<Shape<W>>,
}

/// The contents of a list of trees.
pub open spec fn shapes_of<W: Wide>(trees: Seq<Tree<W>>) -> Seq<Shape<W>> {
    Seq::new(trees.len(), |t: int| trees[t]@)
}

impl<W: Wide> View for Model<W> {
    type V = Ensemble<W>;

    closed spec fn view(&self) -> Ensemble<W> {
        Ensemble {
            init_score: self.init_score,
            learning_rate: self.learning_rate,
            names: texts_of(self.feature_names@),
            binnings: binnings_of(self.bin_mappers@),
            trees: shapes_of(self.trees@),
        }
    }
}

/// The raw score of a row of bin codes after the first `n` trees.
pub open spec fn score_after<W: Wide>(
    init: W,
    rate: W,
    trees: Seq<Shape<W>>,
    row: Seq<u16>,
    n: nat,
) -> W
    decreases n,
{
    if n == 0 {
        init
    } else {
        score_after(init, rate, trees, row, (n - 1) as nat).sum_of(
            rate.product_of(trees[n - 1].predicts(row)),
        )
    }
}

/// How many of the first `n` nodes split on feature `f`.
pub open spec fn splits_in(nodes: Seq<SplitNode>, f: int, n: nat) -> nat
    decreases n,
{
    if n == 0 {
        0
    } else {
        splits_in(nodes, f, (n - 1) as nat) + if nodes[n - 1].feature == f {
            1nat
        } else {
            0nat
        }
    }
}

/// How many nodes of the first `t` trees split on feature `f`.
pub open spec fn split_count<W>(trees: Seq<Shape<W>>, f: int, t: nat) -> nat
    decreases t,
{
    if t == 0 {
        0
    } else {
        split_count(trees, f, (t - 1) as nat) + splits_in(
            trees[t - 1].nodes,
            f,
            trees[t - 1].nodes.len(),
        )
    }
}

/// How many nodes the first `t` trees have.
pub open spec fn node_count<W>(trees: Seq<Shape<W>>, t: nat) -> nat
    decreases t,
{
    if t == 0 {
        0
    } else {
        node_count(trees, (t - 1) as nat) + trees[t - 1].nodes.len()
    }
}

/// `start` plus the gains of those of the first `n` nodes that split on feature
/// `f`, in order.
pub open spec fn gains_in<W: Wide>(tree: Shape<W>, f: int, n: nat, start: W) -> W
    decreases n,
{
    if n == 0 {
        start
    } else {
        let before = gains_in(tree, f, (n - 1) as nat, start);
        if tree.nodes[n - 1].feature == f {
            before.sum_of(tree.node_gains[n - 1])
        } else {
            before
        }
    }
}

/// The gains that the first `t` trees have on feature `f`, added up in order.
pub open spec fn gain_total<W: Wide>(trees: Seq<Shape<W>>, f: int, t: nat) -> W
    decreases t,
{
    if t == 0 {
        whole(0)
    } else {
        gains_in(
            trees[t - 1],
            f,
            trees[t - 1].nodes.len(),
            gain_total(trees, f, (t - 1) as nat),
        )
    }
}

impl<W: Wide> Ensemble<W> {
    /// Every feature has a name and a valid binning, and every tree leads every
    /// row to a leaf.
    pub open spec fn valid(self) -> bool {
        &&& self.names.len() == self.binnings.len()
        &&& forall|f: int| 0 <= f < self.binnings.len() ==> (#[trigger] self.binnings[f]).valid()
        &&& forall|t: int|
            0 <= t < self.trees.len() ==> (#[trigger] self.trees[t]).valid(self.binnings.len())
    }

    /// The raw score of a row of bin codes.
    pub open spec fn raw_score(self, row: Seq<u16>) -> W {
        score_after(self.init_score, self.learning_rate, self.trees, row, self.trees.len())
    }

    /// The raw score of a row of raw values.
    pub open spec fn raw_score_of_values(self, row: Seq<W>) -> W {
        self.raw_score(binned_row(self.binnings, row))
    }

    /// The model that has only the first `n` trees.
    pub open spec fn first_trees(self, n: int) -> Self {
        Ensemble { trees: self.trees.take(n), ..self }
    }

    /// The loss on labelled rows of column-major raw values.
    pub open spec fn loss(self, columns: Seq<Seq<W>>, labels: Seq<W::Narrow>) -> W {
        logloss_of(raw_scores_of(self, columns, labels.len()), labels)
    }

    /// The probability that a row of raw values is positive.
    pub open spec fn probability(self, row: Seq<W>) -> W {
        sigmoid_of(self.raw_score_of_values(row))
    }
}

impl<W: Wide> Model<W> {
    /// The stored counts agree with the stored lists, and the ensemble is valid.
    pub closed spec fn wf(&self) -> bool {
        &&& self.n_features == self.bin_mappers@.len()
        &&& self@.valid()
    }

    pub proof fn lemma_wf(&self)
        requires
            self.wf(),
        ensures
            self@.valid(),
            self@.binnings.len() <= usize::MAX,
    {
    }

    /// Constant the boosting loop started from (the prior log-odds of the
    /// labels).
    pub fn init_score(&self) -> (r: W)
        ensures
            r == self@.init_score,
    {
        self.init_score
    }

    /// Shrinkage applied to every tree's leaf value at inference.
    pub fn learning_rate(&self) -> (r: W)
        ensures
            r == self@.learning_rate,
    {
        self.learning_rate
    }

    /// Number of input features this model expects per row.
    pub fn n_features(&self) -> (r: usize)
        requires
            self.wf(),
        ensures
            r == self@.binnings.len(),
    {
        self.n_features
    }

    /// Feature names in index order, as declared by the training builder.
    pub fn feature_names(&self) -> (r: &[String])
        ensures
            texts_of(r@) == self@.names,
    {
        self.feature_names.as_slice()
    }

    /// Number of trees in the ensemble. After early stopping, this equals
    /// `best_iter + 1`, not the configured `num_iterations`.
    pub fn n_trees(&self) -> (r: usize)
        ensures
            r == self@.trees.len(),
    {
        self.trees.len()
    }

    /// The trees themselves, in fit order.
    pub fn trees(&self) -> (r: &[Tree<W>])
        ensures
            shapes_of(r@) == self@.trees,
    {
        self.trees.as_slice()
    }

    /// The bin mappers, in index order.
    pub fn bin_mappers(&self) -> (r: &[BinMapper<W>])
        ensures
            binnings_of(r@) == self@.binnings,
    {
        self.bin_mappers.as_slice()
    }

    /// A model from stored parts, or `None` when they do not fit together.
    pub fn from_parts(
        init_score: W,
        learning_rate: W,
        feature_names: Vec<String>,
        bin_mappers: Vec<BinMapper<W>>,
        trees: Vec<Tree<W>>,
    ) -> (r: Option<Self>)
        ensures
            ({
                let parts = Ensemble {
                    init_score,
                    learning_rate,
                    names: texts_of(feature_names@),
                    binnings: binnings_of(bin_mappers@),
                    trees: shapes_of(trees@),
                };
                match r {
                    Some(m) => m@ == parts && m.wf(),
                    None => !parts.valid(),
                }
            }),
    {
        let ghost binnings = binnings_of(bin_mappers@);
        let ghost shapes = shapes_of(trees@);
        let ghost parts = Ensemble {
            init_score,
            learning_rate,
            names: texts_of(feature_names@),
            binnings,
            trees: shapes,
        };
        let n: usize = bin_mappers.len();
        if feature_names.len() != n {
            return None;
        }
        let mut f: usize = 0;
        while f < n
            invariant
                f <= n == bin_mappers@.len(),
                binnings == binnings_of(bin_mappers@),
                forall|g: int| 0 <= g < f ==> (#[trigger] binnings[g]).valid(),
            decreases n - f,
        {
            assert(binnings[f as int] == bin_mappers@[f as int]@);
            if !bin_mappers[f].is_valid() {
                return None;
            }
            f = f + 1;
        }
        let mut t: usize = 0;
        while t < trees.len()
            invariant
                t <= trees@.len(),
                n == binnings.len(),
                binnings == binnings_of(bin_mappers@),
                shapes == shapes_of(trees@),
                parts == (Ensemble {
                    init_score,
                    learning_rate,
                    names: texts_of(feature_names@),
                    binnings,
                    trees: shapes,
                }),
                forall|u: int| 0 <= u < t ==> (#[trigger] shapes[u]).valid(n as nat),
            decreases trees@.len() - t,
        {
            assert(shapes[t as int] == trees@[t as int]@);
            if !trees[t].is_valid(n) {
                assert(!parts.trees[t as int].valid(parts.binnings.len()));
                return None;
            }
            t = t + 1;
        }
        Some(Self::assemble(init_score, learning_rate, feature_names, bin_mappers, trees))
    }

    /// A model from parts that are known to fit together.
    pub(crate) fn assemble(
        init_score: W,
        learning_rate: W,
        feature_names: Vec<String>,
        bin_mappers: Vec<BinMapper<W>>,
        trees: Vec<Tree<W>>,
    ) -> (r: Self)
        requires
            (Ensemble {
                init_score,
                learning_rate,
                names: texts_of(feature_names@),
                binnings: binnings_of(bin_mappers@),
                trees: shapes_of(trees@),
            }).valid(),
        ensures
            r.wf(),
            r@ == (Ensemble {
                init_score,
                learning_rate,
                names: texts_of(feature_names@),
                binnings: binnings_of(bin_mappers@),
                trees: shapes_of(trees@),
            }),
    {
        let n_features: usize = bin_mappers.len();
        Model { init_score, learning_rate, n_features, feature_names, bin_mappers, trees }
    }

    /// Whether the builder declares exactly the features this model was trained
    /// on (same names, same order).
    pub fn check_features<X>(&self, features: &FeatureBuilder<X>) -> (r: bool)
        ensures
            r == (features.declared() == self@.names),
    {
        let names: Vec<&str> = features.names();
        if names.len() != self.feature_names.len() {
            return false;
        }
        let mut i: usize = 0;
        while i < names.len()
            invariant
                i <= names@.len() == self.feature_names@.len() == features.declared().len(),
                forall|f: int|
                    0 <= f < names@.len() ==> (#[trigger] names@[f])@ == features.declared()[f],
                forall|f: int|
                    0 <= f < i ==> #[trigger] features.declared()[f] == self.feature_names@[f]@,
            decreases names@.len() - i,
        {
            if names[i].to_owned() != self.feature_names[i] {
                assert(features.declared()[i as int] != self@.names[i as int]);
                return false;
            }
            assert(names@[i as int]@ == features.declared()[i as int]);
            i = i + 1;
        }
        assert(features.declared() =~= self@.names);
        true
    }

    /// Number of times each feature was used as a split, indexed by feature.
    pub fn feature_importance_split(&self) -> (r: Vec<u32>)
        requires
            self.wf(),
            node_count(self@.trees, self@.trees.len()) <= u32::MAX,
        ensures
            r@.len() == self@.binnings.len(),
            forall|f: int|
                0 <= f < r@.len() ==> (#[trigger] r@[f]) == split_count(
                    self@.trees,
                    f,
                    self@.trees.len(),
                ),
    {
        let ghost trees = self@.trees;
        let mut counts: Vec<u32> = vec![0u32; self.n_features];
        let mut t: usize = 0;
        while t < self.trees.len()
            invariant
                t <= self.trees@.len(),
                self.wf(),
                trees == self@.trees,
                node_count(trees, trees.len()) <= u32::MAX,
                counts@.len() == self@.binnings.len(),
                forall|f: int|
                    0 <= f < counts@.len() ==> (#[trigger] counts@[f]) == split_count(
                        trees,
                        f,
                        t as nat,
                    ),
            decreases self.trees@.len() - t,
        {
            let tree: &Tree<W> = &self.trees[t];
            assert(trees[t as int] == tree@);
            let ghost nodes = tree@.nodes;
            let mut k: usize = 0;
            while k < tree.nodes.len()
                invariant
                    k <= tree.nodes@.len(),
                    t < trees.len(),
                    trees[t as int] == tree@,
                    counts@.len() == self@.binnings.len(),
                    tree@.valid(counts@.len()),
                    nodes == tree.nodes@,
                    node_count(trees, trees.len()) <= u32::MAX,
                    forall|f: int|
                        0 <= f < counts@.len() ==> (#[trigger] counts@[f]) == split_count(
                            trees,
                            f,
                            t as nat,
                        ) + splits_in(nodes, f, k as nat),
                decreases tree.nodes@.len() - k,
            {
                assert(tree@.node_valid(k as int, counts@.len()));
                let f: usize = tree.nodes[k].feature as usize;
                proof {
                    lemma_split_count(trees, f as int, t as nat);
                    lemma_splits_in(nodes, f as int, k as nat);
                    lemma_node_count(trees, (t + 1) as nat, trees.len());
                }
                let c: u32 = counts[f];
                counts.set(f, c + 1);
                k = k + 1;
            }
            t = t + 1;
        }
        counts
    }

    /// Total split gain attributed to each feature, indexed by feature.
    pub fn feature_importance_gain(&self) -> (r: Vec<W>)
        requires
            self.wf(),
        ensures
            r@.len() == self@.binnings.len(),
            forall|f: int|
                0 <= f < r@.len() ==> #[trigger] r@[f] == gain_total(
                    self@.trees,
                    f,
                    self@.trees.len(),
                ),
    {
        let ghost trees = self@.trees;
        let mut gains: Vec<W> = Vec::with_capacity(self.n_features);
        let mut i: usize = 0;
        while i < self.n_features
            invariant
                i <= self.n_features,
                gains@.len() == i,
                forall|f: int| 0 <= f < i ==> #[trigger] gains@[f] == whole::<W>(0),
            decreases self.n_features - i,
        {
            gains.push(constant(0));
            i = i + 1;
        }
        let mut t: usize = 0;
        while t < self.trees.len()
            invariant
                t <= self.trees@.len(),
                self.wf(),
                trees == self@.trees,
                gains@.len() == self@.binnings.len(),
                forall|f: int|
                    0 <= f < gains@.len() ==> #[trigger] gains@[f] == gain_total(
                        trees,
                        f,
                        t as nat,
                    ),
            decreases self.trees@.len() - t,
        {
            let tree: &Tree<W> = &self.trees[t];
            assert(trees[t as int] == tree@);
            let mut k: usize = 0;
            while k < tree.nodes.len()
                invariant
                    k <= tree.nodes@.len(),
                    t < trees.len(),
                    trees[t as int] == tree@,
                    gains@.len() == self@.binnings.len(),
                    tree@.valid(gains@.len()),
                    forall|f: int|
                        0 <= f < gains@.len() ==> #[trigger] gains@[f] == gains_in(
                            tree@,
                            f,
                            k as nat,
                            gain_total(trees, f, t as nat),
                        ),
                decreases tree.nodes@.len() - k,
            {
                assert(tree@.node_valid(k as int, gains@.len()));
                let f: usize = tree.nodes[k].feature as usize;
                let sum: W = gains[f].plus(tree.node_gains[k]);
                gains.set(f, sum);
                k = k + 1;
            }
            t = t + 1;
        }
        gains
    }
}

/// The contract of a prediction for every row: the raw scores of the first `n`
/// rows of column-major values.
pub open spec fn raw_scores_of<W: Wide>(
    ensemble: Ensemble<W>,
    columns: Seq<Seq<W>>,
    n: nat,
) -> Seq<W> {
    Seq::new(n, |r: int| ensemble.raw_score_of_values(row_values(columns, r)))
}

/// The probabilities of the first `n` rows of column-major values.
pub open spec fn probabilities_of<W: Wide>(
    ensemble: Ensemble<W>,
    columns: Seq<Seq<W>>,
    n: nat,
) -> Seq<W> {
    Seq::new(n, |r: int| ensemble.probability(row_values(columns, r)))
}

impl<W: Wide> Model<W> {
    /// Predict probabilities (sigmoid of the raw additive scores) for `rows`,
    /// extracting features through `features` (the same builder used to train).
    ///
    /// Bins each row through the training-time mappers into a row-major buffer,
    /// then walks the trees on bin codes, tree by tree.
    pub fn predict_proba<X, T>(&self, features: &FeatureBuilder<X>, rows: &[T]) -> (r: Vec<W>) where
        X: Fn(&T) -> Datum<W>,

        requires
            self.wf(),
            features.declared() == self@.names,
            features.accepts::<T, W>(rows@),
            rows@.len() * self@.binnings.len() <= usize::MAX,
        ensures
            exists|columns: Seq<Seq<W>>| #[trigger]
                features.extracted(rows@, columns) && r@ == probabilities_of(
                    self@,
                    columns,
                    rows@.len(),
                ),
    {
        let raw: Vec<W> = self.predict_raw_scores(features, rows);
        let ghost columns = choose|columns: Seq<Seq<W>>| #[trigger]
            features.extracted(rows@, columns) && raw@ == raw_scores_of(
                self@,
                columns,
                rows@.len(),
            );
        let r: Vec<W> = sigmoid_all(&raw);
        assert(r@ =~= probabilities_of(self@, columns, rows@.len()));
        r
    }

    /// Raw additive scores (pre-sigmoid logits). Not public: the serving surface
    /// is [`Model::predict_proba`].
    fn predict_raw_scores<X, T>(&self, features: &FeatureBuilder<X>, rows: &[T]) -> (r: Vec<
        W,
    >) where X: Fn(&T) -> Datum<W>,
        requires
            self.wf(),
            features.declared() == self@.names,
            features.accepts::<T, W>(rows@),
            rows@.len() * self@.binnings.len() <= usize::MAX,
        ensures
            exists|columns: Seq<Seq<W>>| #[trigger]
                features.extracted(rows@, columns) && r@ == raw_scores_of(
                    self@,
                    columns,
                    rows@.len(),
                ),
    {
        let mut bins: Vec<u16> = Vec::new();
        proof {
            assert forall|f: int| 0 <= f < self.bin_mappers@.len() implies (
            #[trigger] self.bin_mappers@[f])@.valid() by {
                assert(self@.binnings[f].valid());
            }
            assert(features.declared().len() == self@.names.len());
        }
        features.extract_bins_row_major(rows, self.bin_mappers.as_slice(), &mut bins);
        let ghost columns = choose|columns: Seq<Seq<W>>| #[trigger]
            features.extracted(rows@, columns) && bins@ == flat(
                binned_rows(self@.binnings, columns, rows@.len()),
            );
        let ghost coded = binned_rows(self@.binnings, columns, rows@.len());
        let r: Vec<W> = self.score_rows(&bins, rows.len(), Ghost(coded));
        assert(r@ =~= raw_scores_of(self@, columns, rows@.len()));
        r
    }

    /// The raw scores of `n` rows of bin codes that stand one after the other.
    pub(crate) fn score_rows(
        &self,
        bins: &Vec<u16>,
        n: usize,
        Ghost(coded): Ghost<Seq<Seq<u16>>>,
    ) -> (r: Vec<W>)
        requires
            self.wf(),
            coded.len() == n,
            forall|i: int| 0 <= i < n ==> (#[trigger] coded[i]).len() == self@.binnings.len(),
            bins@ == flat(coded),
            n * self@.binnings.len() <= usize::MAX,
        ensures
            r@ == Seq::new(n as nat, |i: int| self@.raw_score(coded[i])),
    {
        let nf: usize = self.n_features;
        let ghost e = self@;
        let mut scores: Vec<W> = repeated(self.init_score, n);
        let mut t: usize = 0;
        while t < self.trees.len()
            invariant
                t <= self.trees@.len(),
                self.wf(),
                e == self@,
                nf == e.binnings.len(),
                coded.len() == n,
                forall|i: int| 0 <= i < n ==> (#[trigger] coded[i]).len() == nf,
                bins@ == flat(coded),
                n * nf <= usize::MAX,
                scores@.len() == n,
                forall|i: int|
                    0 <= i < n ==> #[trigger] scores@[i] == score_after(
                        e.init_score,
                        e.learning_rate,
                        e.trees,
                        coded[i],
                        t as nat,
                    ),
            decreases self.trees@.len() - t,
        {
            let tree: &Tree<W> = &self.trees[t];
            assert(e.trees[t as int] == tree@);
            let mut i: usize = 0;
            while i < n
                invariant
                    i <= n,
                    t < e.trees.len(),
                    e == self@,
                    e.trees[t as int] == tree@,
                    tree@.valid(nf as nat),
                    coded.len() == n,
                    forall|i: int| 0 <= i < n ==> (#[trigger] coded[i]).len() == nf,
                    bins@ == flat(coded),
                    n * nf <= usize::MAX,
                    scores@.len() == n,
                    forall|k: int|
                        0 <= k < n ==> #[trigger] scores@[k] == score_after(
                            e.init_score,
                            e.learning_rate,
                            e.trees,
                            coded[k],
                            if k < i {
                                (t + 1) as nat
                            } else {
                                t as nat
                            },
                        ),
                decreases n - i,
            {
                proof {
                    lemma_flat(coded, nf as nat, i as int);
                }
                let row: &[u16] = slice_subrange(bins.as_slice(), i * nf, (i + 1) * nf);
                assert(row@ == coded[i as int]);
                let s: W = scores[i].plus(self.learning_rate.times(tree.predict_on_row_bins(row)));
                scores.set(i, s);
                i = i + 1;
            }
            t = t + 1;
        }
        assert(scores@ =~= Seq::new(n as nat, |i: int| self@.raw_score(coded[i])));
        scores
    }

    /// Raw additive scores for every row of a dataset that was binned with this
    /// model's mappers.
    pub fn predict_raw_scores_on_dataset(&self, ds: &Dataset<W>) -> (r: Vec<W>)
        requires
            self.wf(),
            ds.wf(),
            ds@.codes.len() == self@.binnings.len(),
        ensures
            r@ == Seq::new(ds@.rows, |i: int| self@.raw_score(row_codes(ds@.codes, i))),
    {
        let n: usize = ds.n_rows();
        let ghost e = self@;
        let mut scores: Vec<W> = repeated(self.init_score, n);
        let mut t: usize = 0;
        while t < self.trees.len()
            invariant
                t <= self.trees@.len(),
                self.wf(),
                ds.wf(),
                ds@.codes.len() == e.binnings.len(),
                e == self@,
                n == ds@.rows,
                scores@.len() == n,
                forall|i: int|
                    0 <= i < n ==> #[trigger] scores@[i] == score_after(
                        e.init_score,
                        e.learning_rate,
                        e.trees,
                        row_codes(ds@.codes, i),
                        t as nat,
                    ),
            decreases self.trees@.len() - t,
        {
            let tree: &Tree<W> = &self.trees[t];
            assert(e.trees[t as int] == tree@);
            let mut i: usize = 0;
            while i < n
                invariant
                    i <= n,
                    t < e.trees.len(),
                    e == self@,
                    e.trees[t as int] == tree@,
                    ds.wf(),
                    tree@.valid(ds@.codes.len()),
                    n == ds@.rows,
                    scores@.len() == n,
                    forall|k: int|
                        0 <= k < n ==> #[trigger] scores@[k] == score_after(
                            e.init_score,
                            e.learning_rate,
                            e.trees,
                            row_codes(ds@.codes, k),
                            if k < i {
                                (t + 1) as nat
                            } else {
                                t as nat
                            },
                        ),
                decreases n - i,
            {
                let s: W = scores[i].plus(
                    self.learning_rate.times(tree.predict_on_dataset(ds, i)),
                );
                scores.set(i, s);
                i = i + 1;
            }
            t = t + 1;
        }
        assert(scores@ =~= Seq::new(
            ds@.rows,
            |i: int| self@.raw_score(row_codes(ds@.codes, i)),
        ));
        scores
    }

    /// Probabilities for every row of a dataset that was binned with this model's
    /// mappers.
    pub fn predict_proba_on_dataset(&self, ds: &Dataset<W>) -> (r: Vec<W>)
        requires
            self.wf(),
            ds.wf(),
            ds@.codes.len() == self@.binnings.len(),
        ensures
            r@ == Seq::new(
                ds@.rows,
                |i: int| sigmoid_of(self@.raw_score(row_codes(ds@.codes, i))),
            ),
    {
        let r: Vec<W> = sigmoid_all(&self.predict_raw_scores_on_dataset(ds));
        assert(r@ =~= Seq::new(
            ds@.rows,
            |i: int| sigmoid_of(self@.raw_score(row_codes(ds@.codes, i))),
        ));
        r
    }
}

pub(crate) fn sigmoid_all<W: Wide>(raw: &Vec<W>) -> (r: Vec<W>)
    ensures
        r@ == Seq::new(raw@.len(), |i: int| sigmoid_of(raw@[i])),
{
    let mut r: Vec<W> = Vec::with_capacity(raw.len());
    let mut i: usize = 0;
    while i < raw.len()
        invariant
            i <= raw@.len(),
            r@ =~= Seq::new(i as nat, |i: int| sigmoid_of(raw@[i])),
        decreases raw@.len() - i,
    {
        r.push(sigmoid(raw[i]));
        i = i + 1;
    }
    r
}

/// A row's prediction does not depend on the other rows of its batch.
pub proof fn law_batch_invariant<W: Wide>(
    ensemble: Ensemble<W>,
    columns: Seq<Seq<W>>,
    n: nat,
    r: int,
    other: Seq<Seq<W>>,
    m: nat,
    s: int,
)
    requires
        0 <= r < n,
        0 <= s < m,
        row_values(columns, r) == row_values(other, s),
    ensures
        probabilities_of(ensemble, columns, n)[r] == probabilities_of(ensemble, other, m)[s],
{
}

/// Every leaf value is finite.
pub open spec fn leaves_finite<W: Wide>(tree: Shape<W>) -> bool {
    forall|i: int| 0 <= i < tree.leaf_values.len() ==> (#[trigger] tree.leaf_values[i]).finite()
}

impl<W: Wide> Ensemble<W> {
    /// The init score and all leaf values are finite, and the learning rate is one
    /// that training accepts.
    pub open spec fn finite(self) -> bool {
        &&& self.init_score.finite()
        &&& is_fraction(self.learning_rate)
        &&& forall|t: int| 0 <= t < self.trees.len() ==> leaves_finite(#[trigger] self.trees[t])
    }
}

/// A finite model gives every row a raw score that compares, after any number of
/// its trees.
pub proof fn law_score_compares<W: Wide>(ensemble: Ensemble<W>, row: Seq<u16>, n: nat)
    requires
        ensemble.valid(),
        ensemble.finite(),
        n <= ensemble.trees.len(),
    ensures
        score_after(
            ensemble.init_score,
            ensemble.learning_rate,
            ensemble.trees,
            row,
            n,
        ).rank_of() is Some,
    decreases n,
{
    if n == 0 {
        ensemble.init_score.finite_compares();
    } else {
        law_score_compares(ensemble, row, (n - 1) as nat);
        let before = score_after(
            ensemble.init_score,
            ensemble.learning_rate,
            ensemble.trees,
            row,
            (n - 1) as nat,
        );
        let tree = ensemble.trees[n - 1];
        assert(tree.valid(ensemble.binnings.len()));
        lemma_walk_in_range(tree, ensemble.binnings.len(), row, 0);
        assert(leaves_finite(tree));
        assert(tree.leaf_values[tree.leaf_of(row)].finite());
        W::part_is_finite(ensemble.learning_rate, tree.predicts(row));
        before.finite_step_compares(ensemble.learning_rate.product_of(tree.predicts(row)));
    }
}

/// The probability that a finite model predicts for a row, whatever its values,
/// lies between zero and one.
pub proof fn law_probability_within_one<W: Wide>(ensemble: Ensemble<W>, row: Seq<W>)
    requires
        ensemble.valid(),
        ensemble.finite(),
    ensures
        le(whole(0), ensemble.probability(row)),
        le(ensemble.probability(row), whole(1)),
{
    law_score_compares(ensemble, binned_row(ensemble.binnings, row), ensemble.trees.len());
    law_sigmoid_within_one(ensemble.raw_score_of_values(row));
}

/// A model without trees gives every row the probability of its init score.
pub proof fn law_treeless<W: Wide>(ensemble: Ensemble<W>, row: Seq<W>)
    requires
        ensemble.trees.len() == 0,
    ensures
        ensemble.probability(row) == sigmoid_of(ensemble.init_score),
{
}

/// Predicting from raw values and predicting from a dataset that holds the bin
/// codes of the same values give the same raw scores.
pub proof fn law_paths_agree<W: Wide>(
    ensemble: Ensemble<W>,
    columns: Seq<Seq<W>>,
    codes: Seq<Seq<u16>>,
    rows: nat,
    r: int,
)
    requires
        0 <= r < rows,
        columns.len() == ensemble.binnings.len(),
        codes == Seq::new(
            columns.len(),
            |f: int| encoded(ensemble.binnings[f], columns[f]),
        ),
        forall|f: int| 0 <= f < columns.len() ==> (#[trigger] columns[f]).len() == rows,
    ensures
        ensemble.raw_score(row_codes(codes, r)) == ensemble.raw_score_of_values(
            row_values(columns, r),
        ),
{
    assert(row_codes(codes, r) =~= binned_row(ensemble.binnings, row_values(columns, r))) by {
        assert forall|f: int| 0 <= f < columns.len() implies #[trigger] row_codes(codes, r)[f]
            == binned_row(ensemble.binnings, row_values(columns, r))[f] by {
            assert(columns[f].len() == rows);
        }
    }
}

proof fn lemma_splits_in(nodes: Seq<SplitNode>, f: int, n: nat)
    ensures
        splits_in(nodes, f, n) <= n,
    decreases n,
{
    if n > 0 {
        lemma_splits_in(nodes, f, (n - 1) as nat);
    }
}

proof fn lemma_split_count<W>(trees: Seq<Shape<W>>, f: int, t: nat)
    ensures
        split_count(trees, f, t) <= node_count(trees, t),
    decreases t,
{
    if t > 0 {
        lemma_split_count(trees, f, (t - 1) as nat);
        lemma_splits_in(trees[t - 1].nodes, f, trees[t - 1].nodes.len());
    }
}

proof fn lemma_node_count<W>(trees: Seq<Shape<W>>, t: nat, n: nat)
    requires
        t <= n,
    ensures
        node_count(trees, t) <= node_count(trees, n),
    decreases n,
{
    if t < n {
        lemma_node_count(trees, t, (n - 1) as nat);
    }
}

/// The split counts of the first `n` features together.
pub open spec fn counted_splits<W>(trees: Seq<Shape<W>>, t: nat, n: nat) -> nat
    decreases n,
{
    if n == 0 {
        0
    } else {
        counted_splits(trees, t, (n - 1) as nat) + split_count(trees, n - 1, t)
    }
}

/// How many of the first `k` nodes split on one of the first `n` features.
spec fn splits_below(nodes: Seq<SplitNode>, k: nat, n: nat) -> nat
    decreases n,
{
    if n == 0 {
        0
    } else {
        splits_below(nodes, k, (n - 1) as nat) + splits_in(nodes, n - 1, k)
    }
}

proof fn lemma_splits_below(nodes: Seq<SplitNode>, k: nat, n: nat)
    requires
        k > 0,
    ensures
        splits_below(nodes, k, n) == splits_below(nodes, (k - 1) as nat, n) + if nodes[k
            - 1].feature < n {
            1nat
        } else {
            0nat
        },
    decreases n,
{
    if n > 0 {
        lemma_splits_below(nodes, k, (n - 1) as nat);
    }
}

proof fn lemma_every_node_counted(nodes: Seq<SplitNode>, k: nat, n: nat)
    requires
        k <= nodes.len(),
        forall|i: int| 0 <= i < k ==> (#[trigger] nodes[i]).feature < n,
    ensures
        splits_below(nodes, k, n) == k,
    decreases k,
{
    if k > 0 {
        lemma_every_node_counted(nodes, (k - 1) as nat, n);
        lemma_splits_below(nodes, k, n);
        assert(nodes[k - 1].feature < n);
    } else {
        lemma_no_nodes(nodes, n);
    }
}

proof fn lemma_no_nodes(nodes: Seq<SplitNode>, n: nat)
    ensures
        splits_below(nodes, 0, n) == 0,
    decreases n,
{
    if n > 0 {
        lemma_no_nodes(nodes, (n - 1) as nat);
    }
}

proof fn lemma_tree_counted<W>(trees: Seq<Shape<W>>, t: nat, n: nat)
    requires
        t > 0,
    ensures
        counted_splits(trees, t, n) == counted_splits(trees, (t - 1) as nat, n) + splits_below(
            trees[t - 1].nodes,
            trees[t - 1].nodes.len(),
            n,
        ),
    decreases n,
{
    if n > 0 {
        lemma_tree_counted(trees, t, (n - 1) as nat);
    }
}

proof fn lemma_no_trees<W>(trees: Seq<Shape<W>>, n: nat)
    ensures
        counted_splits(trees, 0, n) == 0,
    decreases n,
{
    if n > 0 {
        lemma_no_trees(trees, (n - 1) as nat);
    }
}

/// Every node of a tree has a gain above zero.
pub open spec fn gains_positive<W: Wide>(tree: Shape<W>) -> bool {
    &&& tree.node_gains.len() == tree.nodes.len()
    &&& forall|k: int|
        0 <= k < tree.node_gains.len() ==> lt(whole(0), #[trigger] tree.node_gains[k])
}

proof fn lemma_gains_in<W: Wide>(tree: Shape<W>, f: int, n: nat, start: W)
    requires
        gains_positive(tree),
        n <= tree.nodes.len(),
        le(whole(0), start),
    ensures
        le(whole(0), gains_in(tree, f, n, start)),
        splits_in(tree.nodes, f, n) == 0 ==> gains_in(tree, f, n, start) == start,
        splits_in(tree.nodes, f, n) > 0 ==> lt(whole(0), gains_in(tree, f, n, start)),
        lt(whole(0), start) ==> lt(whole(0), gains_in(tree, f, n, start)),
    decreases n,
{
    if n > 0 {
        lemma_gains_in(tree, f, (n - 1) as nat, start);
        let before = gains_in(tree, f, (n - 1) as nat, start);
        if tree.nodes[n - 1].feature == f {
            assert(lt(whole(0), tree.node_gains[n - 1]));
            W::sum_grows(before, tree.node_gains[n - 1]);
        }
    }
}

/// Where every node has a gain above zero, a feature has a gain above zero exactly
/// if some node splits on it.
pub proof fn law_gain_where_split<W: Wide>(trees: Seq<Shape<W>>, f: int, t: nat)
    requires
        t <= trees.len(),
        forall|i: int| 0 <= i < trees.len() ==> gains_positive(#[trigger] trees[i]),
    ensures
        le(whole(0), gain_total(trees, f, t)),
        lt(whole(0), gain_total(trees, f, t)) <==> split_count(trees, f, t) > 0,
    decreases t,
{
    W::constant_positive(1, 1);
    if t > 0 {
        law_gain_where_split(trees, f, (t - 1) as nat);
        let tree = trees[t - 1];
        assert(gains_positive(tree));
        lemma_gains_in(
            tree,
            f,
            tree.nodes.len(),
            gain_total(trees, f, (t - 1) as nat),
        );
    }
}

/// Every node is counted for exactly one feature: the split counts add up to the
/// number of nodes.
pub proof fn law_splits_add_up<W: Wide>(ensemble: Ensemble<W>, t: nat)
    requires
        ensemble.valid(),
        t <= ensemble.trees.len(),
    ensures
        counted_splits(ensemble.trees, t, ensemble.binnings.len()) == node_count(
            ensemble.trees,
            t,
        ),
    decreases t,
{
    let n = ensemble.binnings.len();
    if t > 0 {
        law_splits_add_up(ensemble, (t - 1) as nat);
        lemma_tree_counted(ensemble.trees, t, n);
        let tree = ensemble.trees[t - 1];
        assert(tree.valid(n));
        assert forall|i: int| 0 <= i < tree.nodes.len() implies (#[trigger] tree.nodes[i]).feature
            < n by {
            assert(tree.node_valid(i, n));
        }
        lemma_every_node_counted(tree.nodes, tree.nodes.len(), n);
    } else {
        lemma_no_trees(ensemble.trees, n);
    }
}

/// One tree more moves the raw score by the learning rate times the value of the leaf
/// that the row reaches in it, and a model without trees gives the initial score.
pub proof fn law_one_tree_more<W: Wide>(ensemble: Ensemble<W>, row: Seq<u16>, n: int)
    requires
        0 <= n < ensemble.trees.len(),
    ensures
        ({
            let tree = ensemble.trees[n];
            let step = ensemble.learning_rate.product_of(tree.leaf_values[tree.leaf_of(row)]);
            ensemble.first_trees(n + 1).raw_score(row) == ensemble.first_trees(n).raw_score(
                row,
            ).sum_of(step)
        }),
        ensemble.first_trees(0).raw_score(row) == ensemble.init_score,
{
    lemma_score_of_prefix(ensemble, row, n, n as nat);
    lemma_score_of_prefix(ensemble, row, n + 1, n as nat);
}

proof fn lemma_score_of_prefix<W: Wide>(ensemble: Ensemble<W>, row: Seq<u16>, m: int, n: nat)
    requires
        n <= m <= ensemble.trees.len(),
    ensures
        score_after(
            ensemble.init_score,
            ensemble.learning_rate,
            ensemble.trees.take(m),
            row,
            n,
        ) == score_after(ensemble.init_score, ensemble.learning_rate, ensemble.trees, row, n),
    decreases n,
{
    if n > 0 {
        lemma_score_of_prefix(ensemble, row, m, (n - 1) as nat);
    }
}

/// One node more counts as one split and adds its gain, both for the feature that it
/// splits on and for no other; a tree without nodes adds nothing.
pub proof fn law_importance_of_node<W: Wide>(
    trees: Seq<Shape<W>>,
    tree: Shape<W>,
    node: SplitNode,
    gain: W,
    f: int,
)
    requires
        tree.node_gains.len() == tree.nodes.len(),
    ensures
        ({
            let n = trees.len() + 1;
            let more = Shape {
                nodes: tree.nodes.push(node),
                node_gains: tree.node_gains.push(gain),
                ..tree
            };
            let before = trees.push(tree);
            let after = trees.push(more);
            if node.feature == f {
                &&& split_count(after, f, n) == split_count(before, f, n) + 1
                &&& gain_total(after, f, n) == gain_total(before, f, n).sum_of(gain)
            } else {
                &&& split_count(after, f, n) == split_count(before, f, n)
                &&& gain_total(after, f, n) == gain_total(before, f, n)
            }
        }),
        tree.nodes.len() == 0 ==> {
            let n = trees.len() + 1;
            &&& split_count(trees.push(tree), f, n) == split_count(trees, f, trees.len())
            &&& gain_total(trees.push(tree), f, n) == gain_total(trees, f, trees.len())
        },
        split_count(trees, f, 0) == 0,
        gain_total(trees, f, 0) == W::ratio_of(0, 1),
{
    let more = Shape {
        nodes: tree.nodes.push(node),
        node_gains: tree.node_gains.push(gain),
        ..tree
    };
    let k = trees.len();
    lemma_importance_of_prefix(trees, trees.push(tree), f, k);
    lemma_importance_of_prefix(trees, trees.push(more), f, k);
    lemma_node_prefix(tree, more, f, tree.nodes.len(), gain_total(trees, f, k));
}

proof fn lemma_importance_of_prefix<W: Wide>(
    trees: Seq<Shape<W>>,
    longer: Seq<Shape<W>>,
    f: int,
    t: nat,
)
    requires
        t <= trees.len() <= longer.len(),
        forall|i: int| 0 <= i < t ==> trees[i] == longer[i],
    ensures
        split_count(longer, f, t) == split_count(trees, f, t),
        gain_total(longer, f, t) == gain_total(trees, f, t),
    decreases t,
{
    if t > 0 {
        lemma_importance_of_prefix(trees, longer, f, (t - 1) as nat);
    }
}

proof fn lemma_node_prefix<W: Wide>(tree: Shape<W>, more: Shape<W>, f: int, n: nat, start: W)
    requires
        n <= tree.nodes.len() <= more.nodes.len(),
        forall|i: int|
            #![trigger tree.nodes[i]]
            0 <= i < n ==> tree.nodes[i] == more.nodes[i] && tree.node_gains[i]
                == more.node_gains[i],
    ensures
        splits_in(more.nodes, f, n) == splits_in(tree.nodes, f, n),
        gains_in(more, f, n, start) == gains_in(tree, f, n, start),
    decreases n,
{
    if n > 0 {
        lemma_node_prefix(tree, more, f, (n - 1) as nat, start);
        assert(tree.nodes[n - 1] == more.nodes[n - 1]);
    }
}

} // verus!
