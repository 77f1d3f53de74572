use vstd::prelude::*;
use vstd::string::StringExecFns;

use crate::boosting::rounds::{
    drawn_share, in_order, law_early_stopping, lemma_stopped, number_keys, share_of, stepped,
    Progress, Task,
};
use crate::config::{Config, Rules};
use crate::dataset::builder::{coded_table, copied_mappers, shape_problem, table_of};
use crate::dataset::{binnings_of, row_codes, BinMapper, Dataset};
use crate::draws::Draws;
use crate::error::{Error, Result};
use crate::feature::{texts_of, Datum, FeatureBuilder};
use crate::loss::{binary_logloss, gradients_packed, init_score, logloss_of, weights_of};
use crate::model::{shapes_of, Ensemble, Model};
use crate::number::{constant, less, lt, repeated, whole, Wide};
use crate::order::{lemma_order_of, order_by_key, order_of};
use crate::text::{decimal, decimal_of};
use crate::tree::growth::Growth;
use crate::tree::histogram::every_row;
use crate::tree::laws::law_depth;
use crate::tree::learner::TreeLearner;
use crate::tree::soundness::visits;
use crate::tree::{Shape, Tree};

verus! {

/// The numbers below `n`, in ascending order.
fn numbers(n: usize) -> (r: Vec<u32>)
    requires
        n <= u32::MAX,
    ensures
        r@ == every_row(n as nat),
{
    let mut r: Vec<u32> = Vec::with_capacity(n);
    let mut i: usize = 0;
    while i < n
        invariant
            i <= n <= u32::MAX,
            r@ =~= every_row(n as nat).take(i as int),
        decreases n - i,
    {
        r.push(i as u32);
        i = i + 1;
    }
    r
}

fn sort_numbers(items: &Vec<u32>) -> (r: Vec<u32>)
    ensures
        r@ == in_order(items@),
        forall|i: int| 0 <= i < r@.len() ==> items@.contains(#[trigger] r@[i]),
{
    let mut keys: Vec<u64> = Vec::with_capacity(items.len());
    let mut i: usize = 0;
    while i < items.len()
        invariant
            i <= items@.len(),
            keys@ =~= number_keys(items@).take(i as int),
        decreases items@.len() - i,
    {
        keys.push(items[i] as u64);
        i = i + 1;
    }
    assert(keys@ =~= number_keys(items@));
    let order: Vec<usize> = order_by_key(keys.as_slice());
    proof {
        lemma_order_of(keys@);
    }
    let mut r: Vec<u32> = Vec::with_capacity(items.len());
    let mut k: usize = 0;
    while k < items.len()
        invariant
            k <= items@.len(),
            keys@ == number_keys(items@),
            order@ == order_of(keys@),
            order@.len() == items@.len(),
            forall|i: int| 0 <= i < order@.len() ==> (#[trigger] order@[i]) < items@.len(),
            r@ =~= in_order(items@).take(k as int),
            forall|i: int| 0 <= i < k ==> items@.contains(#[trigger] r@[i]),
        decreases items@.len() - k,
    {
        assert(order@[k as int] < items@.len());
        assert(items@.contains(items@[order@[k as int] as int]));
        r.push(items[order[k]]);
        k = k + 1;
    }
    r
}

/// Draw a share of the numbers below `n`: shuffle them, keep the first ones, and
/// put those back in ascending order.
fn sample_indices<W: Wide>(n: usize, fraction: W, rng: &mut Draws) -> (r: Vec<u32>)
    requires
        1 <= n <= u32::MAX,
    ensures
        (r@, *final(rng)) == drawn_share(n as nat, fraction, *old(rng)),
        r@.len() == share_of(n as nat, fraction),
        forall|i: int| 0 <= i < r@.len() ==> (#[trigger] r@[i]) < n,
{
    let k: usize = constant::<W>(n as u64).times(fraction).ceil_count();
    let k: usize = if k < 1 {
        1
    } else if k > n {
        n
    } else {
        k
    };
    let mut all: Vec<u32> = numbers(n);
    let ghost before = all@;
    rng.shuffle(&mut all);
    proof {
        broadcast use vstd::seq_lib::group_to_multiset_ensures;

        assert(all@.len() == all@.to_multiset().len());
        assert(before.len() == before.to_multiset().len());
        assert forall|i: int| 0 <= i < all@.len() implies (#[trigger] all@[i]) < n by {
            assert(all@.contains(all@[i]));
            assert(all@.to_multiset().count(all@[i]) > 0);
            assert(before.to_multiset().count(all@[i]) > 0);
            assert(before.contains(all@[i]));
        }
    }
    let ghost shuffled = all@;
    all.truncate(k);
    assert(all@ =~= shuffled.take(k as int));
    let r: Vec<u32> = sort_numbers(&all);
    proof {
        lemma_order_of(number_keys(all@));
        assert forall|i: int| 0 <= i < r@.len() implies (#[trigger] r@[i]) < n by {
            assert(all@.contains(r@[i]));
            let j = choose|j: int| 0 <= j < all@.len() && all@[j] == r@[i];
            assert(shuffled[j] == r@[i]);
        }
    }
    r
}

/// Training, one round at a time.
pub struct Booster<'a, W: Wide> {
    config: &'a Config<W>,
    train: &'a Dataset<W>,
    valid: Option<&'a Dataset<W>>,
    weights: Option<&'a [W::Narrow]>,
    init_score: W,
    raw_scores: Vec<W>,
    gradhess: Vec<[W::Narrow; 2]>,
    valid_raw_scores: Vec<W>,
    trees: Vec<Tree<W>>,
    rng: Draws,
    all_rows: Vec<u32>,
    bagged_rows: Vec<u32>,
    scores: Ghost<Seq<W>>,
    best_score: W,
    best_iter: usize,
    rounds_no_improve: usize,
    iter: usize,
    stopped: bool,
}

/// What training on the given data is asked to do.
pub open spec fn task_of<W: Wide>(
    config: Config<W>,
    train: &Dataset<W>,
    valid: Option<&Dataset<W>>,
    weights: Option<&[W::Narrow]>,
) -> Task<W> {
    Task {
        config,
        table: train@,
        weights: weights_of(weights),
        valid: match valid {
            Some(v) => Some(v@),
            None => None,
        },
    }
}

/// What every tree of a model keeps: its size and, if it is capped, its depth.
pub open spec fn tree_within<W: Wide>(tree: Shape<W>, rules: Rules<W>) -> bool {
    &&& tree.nodes.len() < rules.num_leaves || tree.nodes.len() == 0
    &&& rules.max_depth > 0 ==> forall|row: Seq<u16>| #[trigger]
        visits(tree.nodes, tree.category_sets, row, 0) <= rules.max_depth
}

impl<'a, W: Wide> Booster<'a, W> {
    pub closed spec fn task(&self) -> Task<W> {
        task_of(*self.config, self.train, self.valid, self.weights)
    }

    /// How far training has come.
    pub closed spec fn progress(&self) -> Progress<W> {
        Progress {
            draws: self.rng,
            bagged: self.bagged_rows@,
            raw: self.raw_scores@,
            valid_raw: self.valid_raw_scores@,
            trees: shapes_of(self.trees@),
            scores: self.scores@,
            best_score: self.best_score,
            best_iter: self.best_iter as nat,
            stale: self.rounds_no_improve as nat,
            stopped: self.stopped,
        }
    }

    /// How many rounds have been run.
    pub closed spec fn rounds(&self) -> nat {
        self.iter as nat
    }

    /// The buffers have the sizes of the data, and the progress is what the
    /// rounds so far lead to.
    pub closed spec fn wf(&self) -> bool {
        &&& self.train.wf()
        &&& self.valid matches Some(v) ==> v.wf() && v@.binnings == self.train@.binnings
        &&& self.weights matches Some(w) ==> w@.len() >= self.train@.rows
        &&& self.task().fits()
        &&& self.train@.codes.len() >= 1
        &&& self.task().draws_rows() ==> self.train@.rows >= 1
        &&& self.init_score == self.task().init_score()
        &&& self.raw_scores@.len() == self.train@.rows
        &&& self.gradhess@.len() == self.train@.rows
        &&& self.valid matches Some(v) ==> self.valid_raw_scores@.len() == v@.rows
        &&& self.all_rows@ == every_row(self.train@.rows)
        &&& self.bagged_rows@.len() <= u32::MAX
        &&& forall|k: int|
            0 <= k < self.bagged_rows@.len() ==> (#[trigger] self.bagged_rows@[k])
                < self.train@.rows
        &&& self.progress() == self.task().after(self.rounds())
        &&& self.trees_fit()
        &&& self.task().samples_exist(self.rounds())
        &&& self.iter <= self.config.num_iterations
        &&& self.best_iter <= self.iter
        &&& self.rounds_no_improve <= self.iter
    }

    pub fn new(
        config: &'a Config<W>,
        train: &'a Dataset<W>,
        valid: Option<&'a Dataset<W>>,
        weights: Option<&'a [W::Narrow]>,
    ) -> (b: Self)
        requires
            train.wf(),
            valid matches Some(v) ==> v.wf() && v@.binnings == train@.binnings,
            weights matches Some(w) ==> w@.len() >= train@.rows,
            task_of(*config, train, valid, weights).fits(),
            train@.codes.len() >= 1,
            task_of(*config, train, valid, weights).draws_rows() ==> train@.rows >= 1,
        ensures
            b.wf(),
            b.task() == task_of(*config, train, valid, weights),
            b.rounds() == 0,
    {
        let n: usize = train.n_rows();
        let start: W = init_score::<W>(train.labels(), weights);
        let zero: W::Narrow = constant(0);
        let valid_raw_scores: Vec<W> = match valid {
            Some(v) => repeated(start, v.n_rows()),
            None => Vec::new(),
        };
        let b = Booster {
            config,
            train,
            valid,
            weights,
            init_score: start,
            raw_scores: repeated(start, n),
            gradhess: repeated([zero, zero], n),
            valid_raw_scores,
            trees: Vec::new(),
            rng: Draws::new(config.seed),
            all_rows: numbers(n),
            bagged_rows: Vec::new(),
            scores: Ghost(Seq::empty()),
            best_score: W::infinity(),
            best_iter: 0,
            rounds_no_improve: 0,
            iter: 0,
            stopped: false,
        };
        assert(b.progress() =~= b.task().start());
        b
    }

    /// Whether there are rounds left to run.
    pub fn is_done(&self) -> (r: bool)
        requires
            self.wf(),
        ensures
            r == (self.rounds() >= self.task().config.num_iterations || self.progress().stopped),
    {
        self.iter >= self.config.num_iterations || self.stopped
    }
}

/// Add a tree to the scores of the rows that it was grown on, through the leaf
/// that each row was recorded at.
fn add_leaf_values<W: Wide>(raw: &mut Vec<W>, rate: W, tree: &Tree<W>, row_to_leaf: &Vec<u32>)
    requires
        row_to_leaf@.len() == old(raw)@.len(),
        forall|r: int|
            0 <= r < row_to_leaf@.len() ==> (#[trigger] row_to_leaf@[r]) < tree@.leaf_values.len(),
    ensures
        final(raw)@ == stepped(
            old(raw)@,
            rate,
            Seq::new(old(raw)@.len(), |r: int| tree@.leaf_values[row_to_leaf@[r] as int]),
        ),
{
    let ghost before = raw@;
    let ghost values = Seq::new(before.len(), |r: int| tree@.leaf_values[row_to_leaf@[r] as int]);
    let mut r: usize = 0;
    while r < raw.len()
        invariant
            r <= raw@.len() == before.len() == row_to_leaf@.len(),
            values == Seq::new(
                before.len(),
                |r: int| tree@.leaf_values[row_to_leaf@[r] as int],
            ),
            forall|r: int|
                0 <= r < row_to_leaf@.len() ==> (#[trigger] row_to_leaf@[r])
                    < tree@.leaf_values.len(),
            forall|k: int| 0 <= k < r ==> #[trigger] raw@[k] == stepped(before, rate, values)[k],
            forall|k: int| r <= k < before.len() ==> #[trigger] raw@[k] == before[k],
        decreases before.len() - r,
    {
        assert(row_to_leaf@[r as int] < tree@.leaf_values.len());
        let s: W = raw[r].plus(rate.times(tree.leaf_values[row_to_leaf[r] as usize]));
        raw.set(r, s);
        r = r + 1;
    }
    assert(raw@ =~= stepped(before, rate, values));
}

/// Add a tree to the scores of the rows of a dataset.
fn add_predictions<W: Wide>(raw: &mut Vec<W>, rate: W, tree: &Tree<W>, ds: &Dataset<W>)
    requires
        ds.wf(),
        tree@.valid(ds@.codes.len()),
        old(raw)@.len() == ds@.rows,
    ensures
        final(raw)@ == stepped(
            old(raw)@,
            rate,
            Seq::new(old(raw)@.len(), |r: int| tree@.predicts(row_codes(ds@.codes, r))),
        ),
{
    let ghost before = raw@;
    let ghost values = Seq::new(before.len(), |r: int| tree@.predicts(row_codes(ds@.codes, r)));
    let mut r: usize = 0;
    while r < raw.len()
        invariant
            r <= raw@.len() == before.len() == ds@.rows,
            ds.wf(),
            tree@.valid(ds@.codes.len()),
            values == Seq::new(
                before.len(),
                |r: int| tree@.predicts(row_codes(ds@.codes, r)),
            ),
            forall|k: int| 0 <= k < r ==> #[trigger] raw@[k] == stepped(before, rate, values)[k],
            forall|k: int| r <= k < before.len() ==> #[trigger] raw@[k] == before[k],
        decreases before.len() - r,
    {
        let s: W = raw[r].plus(rate.times(tree.predict_on_dataset(ds, r)));
        raw.set(r, s);
        r = r + 1;
    }
    assert(raw@ =~= stepped(before, rate, values));
}

fn widened_numbers(items: &Vec<u32>) -> (r: Vec<usize>)
    ensures
        r@ == items@.map_values(|f: u32| f as usize),
{
    let mut r: Vec<usize> = Vec::with_capacity(items.len());
    let mut i: usize = 0;
    while i < items.len()
        invariant
            i <= items@.len(),
            r@ =~= items@.map_values(|f: u32| f as usize).take(i as int),
        decreases items@.len() - i,
    {
        r.push(items[i] as usize);
        i = i + 1;
    }
    r
}

fn positions_below(n: usize) -> (r: Vec<usize>)
    ensures
        r@ == Seq::new(n as nat, |f: int| f as usize),
{
    let mut r: Vec<usize> = Vec::with_capacity(n);
    let mut i: usize = 0;
    while i < n
        invariant
            i <= n,
            r@ =~= Seq::new(i as nat, |f: int| f as usize),
        decreases n - i,
    {
        r.push(i);
        i = i + 1;
    }
    r
}

impl<'a, W: Wide> Booster<'a, W> {
    /// Draw a new bag when its turn has come.
    fn draw_bag(&mut self) -> (bagging_on: bool)
        requires
            old(self).wf(),
            old(self).rounds() < old(self).task().config.num_iterations,
        ensures
            bagging_on == old(self).task().bagging(),
            (final(self).bagged_rows@, final(self).rng) == old(self).task().bag(
                old(self).progress(),
                old(self).rounds(),
            ),
            *final(self) == (Booster {
                bagged_rows: final(self).bagged_rows,
                rng: final(self).rng,
                ..*old(self)
            }),
            final(self).bagged_rows@.len() <= u32::MAX,
            forall|k: int|
                0 <= k < final(self).bagged_rows@.len() ==> (#[trigger] final(self).bagged_rows@[k])
                    < old(self).train@.rows,
    {
        let bagging_on: bool = less(self.config.bagging_fraction, constant(1))
            && self.config.bagging_freq > 0;
        if bagging_on && self.iter % self.config.bagging_freq == 0 {
            let n: usize = self.train.n_rows();
            self.bagged_rows = sample_indices(n, self.config.bagging_fraction, &mut self.rng);
        }
        bagging_on
    }

    /// The features of this round.
    fn draw_features(&mut self) -> (r: Vec<usize>)
        requires
            old(self).train.wf(),
            1 <= old(self).train@.codes.len() <= u32::MAX,
        ensures
            (r@, final(self).rng) == old(self).task().features(old(self).rng),
            *final(self) == (Booster { rng: final(self).rng, ..*old(self) }),
            forall|s: int|
                0 <= s < r@.len() ==> (#[trigger] r@[s]) < old(self).train@.codes.len(),
    {
        let n: usize = self.train.n_features();
        if less(self.config.feature_fraction, constant(1)) {
            let picked: Vec<u32> = sample_indices(n, self.config.feature_fraction, &mut self.rng);
            let r: Vec<usize> = widened_numbers(&picked);
            proof {
                assert forall|s: int| 0 <= s < r@.len() implies (#[trigger] r@[s]) < n by {
                    assert(picked@[s] < n);
                }
            }
            r
        } else {
            positions_below(n)
        }
    }
}

impl<'a, W: Wide> Booster<'a, W> {
    /// Grow the tree of this round on the current gradients.
    fn grow_tree(&mut self) -> (r: (Tree<W>, Vec<u32>))
        requires
            old(self).wf(),
            old(self).rounds() < old(self).task().config.num_iterations,
        ensures
            ({
                let task = old(self).task();
                let iter = old(self).rounds();
                let g = task.growth(old(self).progress(), iter);
                let bag = task.bag(old(self).progress(), iter);
                &&& r.0@ == g.grown().tree
                &&& r.1@ == g.grown().row_to_leaf
                &&& g.valid()
                &&& g.sound(g.grown())
                &&& final(self).bagged_rows@ == bag.0
                &&& final(self).rng == task.features(bag.1).1
            }),
            *final(self) == (Booster {
                bagged_rows: final(self).bagged_rows,
                rng: final(self).rng,
                gradhess: final(self).gradhess,
                ..*old(self)
            }),
            final(self).gradhess@.len() == old(self).gradhess@.len(),
            final(self).bagged_rows@.len() <= u32::MAX,
            forall|k: int|
                0 <= k < final(self).bagged_rows@.len() ==> (#[trigger] final(self).bagged_rows@[k])
                    < old(self).train@.rows,
    {
        let ghost g = self.task().growth(self.progress(), self.rounds());
        proof {
            self.train.lemma_wf();
        }
        let bagging_on: bool = self.draw_bag();
        let features: Vec<usize> = self.draw_features();
        gradients_packed(
            self.raw_scores.as_slice(),
            self.train.labels(),
            self.weights,
            self.gradhess.as_mut_slice(),
        );
        assert(self.gradhess@ =~= g.gradhess);
        let rows: &[u32] = if bagging_on {
            self.bagged_rows.as_slice()
        } else {
            self.all_rows.as_slice()
        };
        let learner = TreeLearner::new(self.config, self.train);
        assert(learner.growth(self.gradhess@, rows@, features@) == g);
        learner.train_one_tree(
            self.gradhess.as_slice(),
            rows,
            features.as_slice(),
            !bagging_on,
        )
    }

    /// Every tree leads rows to leaves and keeps the limits.
    closed spec fn trees_fit(&self) -> bool {
        forall|t: int|
            #![trigger self.trees@[t]]
            0 <= t < self.trees@.len() ==> {
                &&& self.trees@[t]@.valid(self.train@.codes.len())
                &&& tree_within(self.trees@[t]@, self.config.rules())
            }
    }

    /// Add a tree to the validation scores, and see whether they got better.
    fn watch(&mut self, v: &'a Dataset<W>, tree: Tree<W>, iter: usize) -> (score: W)
        requires
            v.wf(),
            tree@.valid(v@.codes.len()),
            v@.codes.len() == old(self).train@.codes.len(),
            tree_within(tree@, old(self).config.rules()),
            old(self).valid_raw_scores@.len() == v@.rows,
            old(self).trees_fit(),
            old(self).trees@.len() == iter,
            old(self).best_iter <= iter < usize::MAX,
            old(self).rounds_no_improve <= iter,
        ensures
            ({
                let valid_raw = stepped(
                    old(self).valid_raw_scores@,
                    old(self).config.learning_rate,
                    Seq::new(
                        old(self).valid_raw_scores@.len(),
                        |r: int| tree@.predicts(row_codes(v@.codes, r)),
                    ),
                );
                let better = lt(
                    score.sum_of(W::ratio_of(1, 1_000_000_000_000)),
                    old(self).best_score,
                );
                let trees = shapes_of(old(self).trees@).push(tree@);
                &&& final(self).valid_raw_scores@ == valid_raw
                &&& score == logloss_of(valid_raw, v@.labels)
                &&& final(self).scores@ == old(self).scores@.push(score)
                &&& final(self).best_score == if better {
                    score
                } else {
                    old(self).best_score
                }
                &&& final(self).best_iter == if better {
                    iter
                } else {
                    old(self).best_iter
                }
                &&& final(self).rounds_no_improve == if better {
                    0
                } else {
                    old(self).rounds_no_improve + 1
                }
                &&& final(self).stopped == (old(self).stopped || (
                old(self).config.early_stopping_round > 0 && final(self).rounds_no_improve
                    >= old(self).config.early_stopping_round))
                &&& shapes_of(final(self).trees@) == if old(self).config.early_stopping_round > 0
                    && final(self).rounds_no_improve >= old(self).config.early_stopping_round {
                    trees.take(final(self).best_iter + 1)
                } else {
                    trees
                }
            }),
            final(self).trees_fit(),
            *final(self) == (Booster {
                valid_raw_scores: final(self).valid_raw_scores,
                trees: final(self).trees,
                scores: final(self).scores,
                best_score: final(self).best_score,
                best_iter: final(self).best_iter,
                rounds_no_improve: final(self).rounds_no_improve,
                stopped: final(self).stopped,
                ..*old(self)
            }),
    {
        let ghost old_trees = self.trees@;
        let ghost shape = tree@;
        proof {
            v.lemma_wf();
        }
        add_predictions(&mut self.valid_raw_scores, self.config.learning_rate, &tree, v);
        let score: W = binary_logloss(self.valid_raw_scores.as_slice(), v.labels());
        self.scores = Ghost(self.scores@.push(score));
        if less(score.plus(W::ratio(1, 1_000_000_000_000)), self.best_score) {
            self.best_score = score;
            self.best_iter = iter;
            self.rounds_no_improve = 0;
        } else {
            self.rounds_no_improve = self.rounds_no_improve + 1;
        }
        self.trees.push(tree);
        let ghost all_trees = self.trees@;
        assert(shapes_of(all_trees) =~= shapes_of(old_trees).push(shape));
        if self.config.early_stopping_round > 0 && self.rounds_no_improve
            >= self.config.early_stopping_round {
            let keep: usize = self.best_iter + 1;
            self.trees.truncate(keep);
            self.stopped = true;
            assert(shapes_of(self.trees@) =~= shapes_of(all_trees).take(keep as int));
        }
        score
    }

    /// Run one round: fit a tree to the current gradients and add it to the
    /// scores. Returns the score on the validation data, if there is any.
    pub fn step(&mut self) -> (r: Option<W>)
        requires
            old(self).wf(),
            old(self).rounds() < old(self).task().config.num_iterations,
            !old(self).progress().stopped,
        ensures
            final(self).wf(),
            final(self).task() == old(self).task(),
            final(self).rounds() == old(self).rounds() + 1,
            match r {
                Some(score) => {
                    &&& final(self).task().valid is Some
                    &&& final(self).progress().scores.len() > 0
                    &&& score == final(self).progress().scores.last()
                },
                None => final(self).task().valid is None,
            },
    {
        let ghost task = self.task();
        let ghost p = self.progress();
        let ghost g = task.growth(p, self.rounds());
        let (tree, row_to_leaf) = self.grow_tree();
        let ghost shape = tree@;
        proof {
            lemma_tree_within(g);
            lemma_next_round(task, self.rounds());
            assert(shape.valid(self.train@.codes.len()));
            law_early_stopping(task, self.rounds());
            assert(self.trees@.len() == self.iter) by {
                assert(shapes_of(self.trees@).len() == self.trees@.len());
            }
        }
        add_leaf_values(&mut self.raw_scores, self.config.learning_rate, &tree, &row_to_leaf);
        let iter: usize = self.iter;
        self.iter = iter + 1;
        match self.valid {
            None => {
                let ghost old_trees = self.trees@;
                self.trees.push(tree);
                proof {
                    assert(shapes_of(self.trees@) =~= shapes_of(old_trees).push(shape));
                    assert(self.progress() =~= task.round(p, iter as nat));
                }
                None
            },
            Some(v) => {
                proof {
                    v.lemma_wf();
                    self.train.lemma_wf();
                }
                let score: W = self.watch(v, tree, iter);
                assert(self.progress() =~= task.round(p, iter as nat));
                Some(score)
            },
        }
    }
}

/// A round more, grown on rows and features that exist.
proof fn lemma_next_round<W: Wide>(task: Task<W>, n: nat)
    requires
        !task.after(n).stopped,
        task.samples_exist(n),
        task.growth(task.after(n), n).valid(),
    ensures
        task.after(n + 1) == task.round(task.after(n), n),
        task.samples_exist(n + 1),
{
    assert forall|k: nat| k < n + 1 && !(#[trigger] task.after(k)).stopped implies task.growth(
        task.after(k),
        k,
    ).valid() by {}
}

/// A grown tree keeps the limits on size and depth.
proof fn lemma_tree_within<W: Wide>(g: Growth<W>)
    requires
        g.valid(),
        g.sound(g.grown()),
    ensures
        tree_within(g.grown().tree, g.rules),
{
    if g.rules.max_depth > 0 {
        assert forall|row: Seq<u16>| #[trigger]
            visits(g.grown().tree.nodes, g.grown().tree.category_sets, row, 0)
                <= g.rules.max_depth by {
            law_depth(g, row);
        }
    }
}

fn owned_names<X>(features: &FeatureBuilder<X>) -> (r: Vec<String>)
    ensures
        texts_of(r@) == features.declared(),
{
    let names: Vec<&str> = features.names();
    let mut r: Vec<String> = Vec::with_capacity(names.len());
    let mut f: usize = 0;
    while f < names.len()
        invariant
            f <= names@.len() == features.declared().len(),
            forall|g: int|
                0 <= g < names@.len() ==> (#[trigger] names@[g])@ == features.declared()[g],
            r@.len() == f,
            forall|g: int| 0 <= g < f ==> (#[trigger] r@[g])@ == features.declared()[g],
        decreases names@.len() - f,
    {
        assert(names@[f as int]@ == features.declared()[f as int]);
        r.push(names[f].to_owned());
        f = f + 1;
    }
    assert(texts_of(r@) =~= features.declared());
    r
}

/// Every tree of a trained model keeps the limits on size and depth.
pub open spec fn trees_within<W: Wide>(ensemble: Ensemble<W>, config: Config<W>) -> bool {
    forall|t: int|
        0 <= t < ensemble.trees.len() ==> tree_within(
            #[trigger] ensemble.trees[t],
            config.rules(),
        )
}

impl<'a, W: Wide> Booster<'a, W> {
    /// The loss on the training data after the rounds so far.
    pub fn train_score(&self) -> (r: W)
        requires
            self.wf(),
        ensures
            r == logloss_of(self.progress().raw, self.task().table.labels),
    {
        proof {
            self.train.lemma_wf();
        }
        binary_logloss(self.raw_scores.as_slice(), self.train.labels())
    }

    /// The model of the trees so far.
    pub fn finish<X>(self, features: &FeatureBuilder<X>) -> (model: Model<W>)
        requires
            self.wf(),
            features.features@.len() == self.task().table.codes.len(),
        ensures
            model.wf(),
            model@ == (Ensemble {
                init_score: self.task().init_score(),
                learning_rate: self.task().config.learning_rate,
                names: features.declared(),
                binnings: self.task().table.binnings,
                trees: self.progress().trees,
            }),
            trees_within(model@, self.task().config),
    {
        let bin_mappers: Vec<BinMapper<W>> = copied_mappers(self.train.bin_mappers());
        let names: Vec<String> = owned_names(features);
        let ghost shapes = shapes_of(self.trees@);
        proof {
            self.train.lemma_wf();
            assert forall|t: int| 0 <= t < shapes.len() implies {
                &&& (#[trigger] shapes[t]).valid(self.train@.codes.len())
                &&& tree_within(shapes[t], self.config.rules())
            } by {
                assert(self.trees@[t]@ == shapes[t]);
            }
        }
        Model::assemble(
            self.init_score,
            self.config.learning_rate,
            names,
            bin_mappers,
            self.trees,
        )
    }
}

/// Trains a model from a [`Config`] and a [`FeatureBuilder`]. The builder declares
/// how each feature column is pulled from your row type; [`GbdtTrainer::fit`]
/// takes the rows and labels directly and bins internally.
pub struct GbdtTrainer<'a, X, W: Wide> {
    pub config: &'a Config<W>,
    pub features: &'a FeatureBuilder<X>,
    pub weights: Option<&'a [W::Narrow]>,
}

/// What is wrong with the number of weights.
pub open spec fn weights_problem<N>(weights: Option<Seq<N>>, labels: nat) -> Option<Seq<char>> {
    match weights {
        Some(w) => if w.len() != labels {
            Some("weights len "@ + decimal_of(w.len()) + " != labels len "@ + decimal_of(labels))
        } else {
            None
        },
        None => None,
    }
}

/// The result is a configuration error with the given text.
pub open spec fn config_error<W>(r: Result<Model<W>>, text: Seq<char>) -> bool {
    r matches Err(Error::Config(m)) && m@ == text
}

/// The result is a shape error with the given text.
pub open spec fn shape_error<W>(r: Result<Model<W>>, text: Seq<char>) -> bool {
    r matches Err(Error::Shape(m)) && m@ == text
}

impl<'a, X, W: Wide> GbdtTrainer<'a, X, W> {
    pub fn new(config: &'a Config<W>, features: &'a FeatureBuilder<X>) -> (r: Self)
        ensures
            r == (GbdtTrainer { config, features, weights: None }),
    {
        GbdtTrainer { config, features, weights: None }
    }

    /// Per-row sample weights; the loss is scaled per row, carrying through to
    /// leaf values and split gains. Their number must equal that of the training
    /// rows passed to [`GbdtTrainer::fit`].
    pub fn with_weights(self, weights: &'a [W::Narrow]) -> (r: Self)
        ensures
            r == (GbdtTrainer { weights: Some(weights), ..self }),
    {
        GbdtTrainer { config: self.config, features: self.features, weights: Some(weights) }
    }

    /// The training task for columns of raw values. The validation rows are binned
    /// with the mappers of the training rows: tree thresholds are codes of those.
    pub open spec fn task(
        self,
        columns: Seq<Seq<W>>,
        labels: Seq<W::Narrow>,
        valid: Option<(Seq<Seq<W>>, Seq<W::Narrow>)>,
    ) -> Task<W> {
        let caps = FeatureBuilder::<X>::caps(*self.config);
        let table = table_of(columns, self.features.flags(), caps, labels);
        Task {
            config: *self.config,
            table,
            weights: weights_of(self.weights),
            valid: match valid {
                Some((c, l)) => Some(coded_table(c, table.binnings, l)),
                None => None,
            },
        }
    }

    /// The result is the model that the task gives, within the limits on size and
    /// depth, and every round drew rows and features that exist.
    pub open spec fn gives(self, r: Result<Model<W>>, task: Task<W>) -> bool {
        match r {
            Ok(model) => {
                &&& model.wf()
                &&& model@ == task.trained(self.features.declared())
                &&& trees_within(model@, *self.config)
                &&& task.samples_exist(self.config.num_iterations as nat)
            },
            Err(_) => false,
        }
    }

    /// Nothing is wrong with the configuration or with the number of features, rows,
    /// labels and weights, so training gets to its rounds. For `valid` the numbers
    /// of rows and labels are given.
    pub open spec fn starts(self, rows: nat, labels: nat, valid: Option<(nat, nat)>) -> bool {
        &&& self.config.problem() is None
        &&& weights_problem(weights_of(self.weights), labels) is None
        &&& self.features.features@.len() > 0
        &&& labels == rows
        &&& valid matches Some((r, l)) ==> l == r
    }

    /// Machine limits on the size of the data and of the trees.
    pub open spec fn fits(self, rows: nat) -> bool {
        let config = *self.config;
        &&& rows <= u32::MAX
        &&& self.features.features@.len() <= u32::MAX
        &&& 2 * config.min_data_in_leaf <= usize::MAX
        &&& config.min_data_in_leaf <= i64::MAX
        &&& config.num_leaves <= 0x4000_0000
        &&& forall|f: int|
            0 <= f < self.features.features@.len() && (
            #[trigger] self.features.features@[f]).categorical ==> config.num_leaves <= 0x10001
    }

    /// Train a model on `rows`/`labels`. Features are extracted and binned via
    /// the [`FeatureBuilder`]. If `valid` is provided (its own rows and labels), it
    /// is binned with the mappers of the training rows, its binary logloss is
    /// evaluated after each iteration, and early stopping is applied (if
    /// configured).
    ///
    /// Rounds that draw a bag need at least one row.
    pub fn fit<T>(
        &self,
        rows: &[T],
        labels: &[W::Narrow],
        valid: Option<(&[T], &[W::Narrow])>,
    ) -> (r: Result<Model<W>>) where X: Fn(&T) -> Datum<W>,
        requires
            self.features.accepts::<T, W>(rows@),
            valid matches Some((vr, vl)) ==> self.features.accepts::<T, W>(vr@),
            self.fits(rows@.len()),
            self.starts(
                rows@.len(),
                labels@.len(),
                match valid {
                    Some((vr, vl)) => Some((vr@.len(), vl@.len())),
                    None => None,
                },
            ) && lt(self.config.bagging_fraction, whole(1)) && self.config.bagging_freq > 0
                && self.config.num_iterations > 0 ==> rows@.len() >= 1,
        ensures
            match self.config.problem() {
                Some(m) => config_error(r, m),
                None => match weights_problem(weights_of(self.weights), labels@.len()) {
                    Some(m) => config_error(r, m),
                    None => exists|columns: Seq<Seq<W>>| #[trigger]
                        self.features.extracted(rows@, columns) && match shape_problem(
                            columns,
                            labels@.len(),
                        ) {
                            Some(m) => shape_error(r, m),
                            None => match valid {
                                None => self.gives(r, self.task(columns, labels@, None)),
                                Some((vr, vl)) => exists|others: Seq<Seq<W>>| #[trigger]
                                    self.features.extracted(vr@, others) && match shape_problem(
                                        others,
                                        vl@.len(),
                                    ) {
                                        Some(m) => shape_error(r, m),
                                        None => self.gives(
                                            r,
                                            self.task(columns, labels@, Some((others, vl@))),
                                        ),
                                    },
                            },
                        },
                },
            },
    {
        match self.config.validate() {
            Ok(_) => {},
            Err(e) => {
                return Err(e);
            },
        }
        if let Some(w) = self.weights {
            if w.len() != labels.len() {
                let m: String = "weights len ".to_owned().concat(
                    decimal(w.len() as u128).as_str(),
                ).concat(" != labels len ").concat(decimal(labels.len() as u128).as_str());
                return Err(Error::Config(m));
            }
        }
        let ghost caps = FeatureBuilder::<X>::caps(*self.config);
        let built = self.features.build_dataset(rows, labels, self.config);
        let ghost columns = choose|columns: Seq<Seq<W>>| #[trigger]
            self.features.extracted(rows@, columns) && match built {
                Ok(ds) => {
                    &&& shape_problem(columns, labels@.len()) is None
                    &&& ds.wf()
                    &&& ds@ == table_of(columns, self.features.flags(), caps, labels@)
                },
                Err(Error::Shape(m)) => shape_problem(columns, labels@.len()) == Some(m@),
                Err(_) => false,
            };
        let train: Dataset<W> = match built {
            Ok(ds) => ds,
            Err(e) => {
                return Err(e);
            },
        };
        proof {
            self.lemma_fits(columns, labels@, rows@.len());
        }
        match valid {
            None => {
                let r = self.fit_dataset(&train, None);
                assert(self.gives(r, self.task(columns, labels@, None)));
                r
            },
            Some((vr, vl)) => {
                let mappers: &[BinMapper<W>] = train.bin_mappers();
                proof {
                    train.lemma_wf();
                    assert(binnings_of(mappers@).len() == mappers@.len());
                    assert forall|f: int| 0 <= f < mappers@.len() implies (
                    #[trigger] mappers@[f])@.valid() by {
                        assert(train@.binnings[f].valid());
                    }
                }
                let built_valid = self.features.code_dataset(vr, vl, mappers);
                let ghost others = choose|others: Seq<Seq<W>>| #[trigger]
                    self.features.extracted(vr@, others) && match built_valid {
                        Ok(ds) => {
                            &&& shape_problem(others, vl@.len()) is None
                            &&& ds.wf()
                            &&& ds@ == coded_table(others, train@.binnings, vl@)
                        },
                        Err(Error::Shape(m)) => shape_problem(others, vl@.len()) == Some(m@),
                        Err(_) => false,
                    };
                let valid_ds: Dataset<W> = match built_valid {
                    Ok(ds) => ds,
                    Err(e) => {
                        return Err(e);
                    },
                };
                let r = self.fit_dataset(&train, Some(&valid_ds));
                assert(self.gives(r, self.task(columns, labels@, Some((others, vl@)))));
                r
            },
        }
    }

    /// The limits on the data are limits on its table.
    proof fn lemma_fits(&self, columns: Seq<Seq<W>>, labels: Seq<W::Narrow>, rows: nat)
        requires
            self.fits(rows),
            columns.len() == self.features.features@.len(),
            forall|f: int| 0 <= f < columns.len() ==> (#[trigger] columns[f]).len() == rows,
            columns.len() > 0,
        ensures
            forall|task: Task<W>|
                task.config == *self.config && task.table == table_of(
                    columns,
                    self.features.flags(),
                    FeatureBuilder::<X>::caps(*self.config),
                    labels,
                ) ==> #[trigger] task.fits(),
    {
        let table = table_of(
            columns,
            self.features.flags(),
            FeatureBuilder::<X>::caps(*self.config),
            labels,
        );
        assert(columns[0].len() == rows);
        assert forall|f: int|
            0 <= f < table.binnings.len() && (
            #[trigger] table.binnings[f]).categorical() implies self.config.num_leaves
            <= 0x10001 by {
            assert(self.features.flags()[f] == self.features.features@[f].categorical);
        }
    }

    /// Core boosting loop over already-binned datasets. The validation data are
    /// binned with the mappers of the training data.
    pub fn fit_dataset(&self, train: &Dataset<W>, valid: Option<&Dataset<W>>) -> (r: Result<
        Model<W>,
    >)
        requires
            train.wf(),
            valid matches Some(v) ==> v.wf() && v@.binnings == train@.binnings,
            self.weights matches Some(w) ==> w@.len() >= train@.rows,
            task_of(*self.config, train, valid, self.weights).fits(),
            train@.codes.len() == self.features.features@.len() >= 1,
            task_of(*self.config, train, valid, self.weights).draws_rows() ==> train@.rows >= 1,
        ensures
            self.gives(r, task_of(*self.config, train, valid, self.weights)),
    {
        let ghost task = task_of(*self.config, train, valid, self.weights);
        let mut booster = Booster::new(self.config, train, valid, self.weights);
        while !booster.is_done()
            invariant
                booster.wf(),
                booster.task() == task,
            decreases task.config.num_iterations - booster.rounds(),
        {
            booster.step();
        }
        proof {
            booster.lemma_rounds();
            lemma_stopped_or_done(task, booster.rounds());
        }
        Ok(booster.finish(self.features))
    }
}

/// Training that has run all its rounds or has stopped is over.
proof fn lemma_stopped_or_done<W: Wide>(task: Task<W>, n: nat)
    requires
        n == task.config.num_iterations || (n <= task.config.num_iterations && task.after(
            n,
        ).stopped),
    ensures
        task.after(task.config.num_iterations as nat) == task.after(n),
        task.samples_exist(n) ==> task.samples_exist(task.config.num_iterations as nat),
{
    if n < task.config.num_iterations {
        lemma_stopped(task, n, task.config.num_iterations as nat);
        if task.samples_exist(n) {
            assert forall|k: nat|
                k < task.config.num_iterations && !(#[trigger] task.after(
                    k,
                )).stopped implies task.growth(task.after(k), k).valid() by {
                if k >= n {
                    lemma_stopped(task, n, k);
                }
            }
        }
    }
}

impl<'a, W: Wide> Booster<'a, W> {
    proof fn lemma_rounds(&self)
        requires
            self.wf(),
        ensures
            self.rounds() <= self.task().config.num_iterations,
            self.progress() == self.task().after(self.rounds()),
            self.task().samples_exist(self.rounds()),
    {
    }
}

} // verus!
