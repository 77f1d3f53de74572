//! What boosting means: rounds that each fit one tree to the gradients of the
//! loss so far.

use vstd::prelude::*;

use crate::config::Config;
use crate::dataset::{row_codes, Table};
use crate::draws::{chacha8_shuffle, Draws};
use crate::loss::{gradients_of, init_score_of, logloss_of};
use crate::model::{score_after, Ensemble};
use crate::number::{lt, whole, Wide};
use crate::order::{by_key, lemma_order_of, order_of};
use crate::tree::growth::Growth;
use crate::tree::histogram::every_row;
use crate::tree::laws::law_recorded_leaf;
use crate::tree::Shape;

verus! {

/// What training is given.
pub struct Task<W: Wide> {
    pub config: Config<W>,
    pub table: Table<W>,
    pub weights: Option<Seq<W::Narrow>>,
    /// The data that early stopping watches, in codes of the table's binnings.
    pub valid: Option<Table<W>>,
}

/// How far training has come.
#[verifier::ext_equal]
pub struct Progress<W> {
    pub draws: Draws,
    /// The rows of the current bag.
    pub bagged: Seq<u32>,
    /// The raw scores of the training rows.
    pub raw: Seq<W>,
    /// The raw scores of the validation rows.
    pub valid_raw: Seq<W>,
    pub trees: Seq<Shape<W>>,
    /// The validation score of every round.
    pub scores: Seq<W>,
    pub best_score: W,
    pub best_iter: nat,
    /// Rounds since the best score.
    pub stale: nat,
    /// Training has stopped early.
    pub stopped: bool,
}

/// How many of `n` items a fraction takes: at least one, at most all.
pub open spec fn share_of<W: Wide>(n: nat, fraction: W) -> nat {
    let k = whole::<W>(n as u64).product_of(fraction).ceil_of();
    if k < 1 {
        1
    } else if k > n {
        n
    } else {
        k as nat
    }
}

/// Numbers in ascending order.
pub open spec fn in_order(items: Seq<u32>) -> Seq<u32> {
    let order = order_of(number_keys(items));
    Seq::new(items.len(), |i: int| items[order[i] as int])
}

pub open spec fn number_keys(items: Seq<u32>) -> Seq<u64> {
    Seq::new(items.len(), |i: int| items[i] as u64)
}

/// A random share of the numbers below `n`, in ascending order, and the place in
/// the random stream after it was drawn.
pub open spec fn drawn_share<W: Wide>(n: nat, fraction: W, draws: Draws) -> (Seq<u32>, Draws) {
    let (shuffled, pos) = chacha8_shuffle(draws.seed, draws.pos, every_row(n));
    (in_order(shuffled.take(share_of(n, fraction) as int)), Draws { seed: draws.seed, pos })
}

/// Raw scores after a tree.
pub open spec fn stepped<W: Wide>(raw: Seq<W>, rate: W, values: Seq<W>) -> Seq<W> {
    Seq::new(raw.len(), |r: int| raw[r].sum_of(rate.product_of(values[r])))
}

impl<W: Wide> Task<W> {
    pub open spec fn bagging(self) -> bool {
        lt(self.config.bagging_fraction, whole(1)) && self.config.bagging_freq > 0
    }

    /// Some round draws a bag.
    pub open spec fn draws_rows(self) -> bool {
        self.bagging() && self.config.num_iterations > 0
    }

    pub open spec fn subsampling(self) -> bool {
        lt(self.config.feature_fraction, whole(1))
    }

    pub open spec fn init_score(self) -> W {
        init_score_of::<W>(self.table.labels, self.weights)
    }

    /// Before the first round.
    pub open spec fn start(self) -> Progress<W> {
        Progress {
            draws: Draws { seed: self.config.seed, pos: 0 },
            bagged: Seq::empty(),
            raw: Seq::new(self.table.rows, |r: int| self.init_score()),
            valid_raw: match self.valid {
                Some(v) => Seq::new(v.rows, |r: int| self.init_score()),
                None => Seq::empty(),
            },
            trees: Seq::empty(),
            scores: Seq::empty(),
            best_score: W::infinite(),
            best_iter: 0,
            stale: 0,
            stopped: false,
        }
    }

    /// The bag of round `iter`, drawn anew every `bagging_freq` rounds.
    pub open spec fn bag(self, p: Progress<W>, iter: nat) -> (Seq<u32>, Draws) {
        if self.bagging() && iter % (self.config.bagging_freq as nat) == 0 {
            drawn_share(self.table.rows, self.config.bagging_fraction, p.draws)
        } else {
            (p.bagged, p.draws)
        }
    }

    /// The features of a round.
    pub open spec fn features(self, draws: Draws) -> (Seq<usize>, Draws) {
        let n = self.table.codes.len();
        if self.subsampling() {
            let (picked, next) = drawn_share(n, self.config.feature_fraction, draws);
            (picked.map_values(|f: u32| f as usize), next)
        } else {
            (Seq::new(n, |f: int| f as usize), draws)
        }
    }

    /// What the tree of round `iter` is grown from.
    pub open spec fn growth(self, p: Progress<W>, iter: nat) -> Growth<W> {
        let (bagged, draws) = self.bag(p, iter);
        Growth {
            rules: self.config.rules(),
            table: self.table,
            gradhess: gradients_of(p.raw, self.table.labels, self.weights),
            rows: if self.bagging() {
                bagged
            } else {
                every_row(self.table.rows)
            },
            features: self.features(draws).0,
        }
    }

    /// Round `iter`: grow a tree, add it to the scores, and look whether the
    /// validation score got better.
    pub open spec fn round(self, p: Progress<W>, iter: nat) -> Progress<W> {
        let (bagged, draws) = self.bag(p, iter);
        let draws = self.features(draws).1;
        let stage = self.growth(p, iter).grown();
        let rate = self.config.learning_rate;
        let raw = stepped(
            p.raw,
            rate,
            Seq::new(p.raw.len(), |r: int| stage.tree.leaf_values[stage.row_to_leaf[r] as int]),
        );
        let trees = p.trees.push(stage.tree);
        match self.valid {
            None => Progress { draws, bagged, raw, trees, ..p },
            Some(v) => {
                let valid_raw = stepped(
                    p.valid_raw,
                    rate,
                    Seq::new(
                        p.valid_raw.len(),
                        |r: int| stage.tree.predicts(row_codes(v.codes, r)),
                    ),
                );
                let score = logloss_of(valid_raw, v.labels);
                let better = lt(
                    score.sum_of(W::ratio_of(1, 1_000_000_000_000)),
                    p.best_score,
                );
                let best_iter = if better {
                    iter
                } else {
                    p.best_iter
                };
                let stale = if better {
                    0
                } else {
                    p.stale + 1
                };
                let stopped = self.config.early_stopping_round > 0 && stale
                    >= self.config.early_stopping_round;
                Progress {
                    draws,
                    bagged,
                    raw,
                    valid_raw,
                    trees: if stopped {
                        trees.take((best_iter + 1) as int)
                    } else {
                        trees
                    },
                    scores: p.scores.push(score),
                    best_score: if better {
                        score
                    } else {
                        p.best_score
                    },
                    best_iter,
                    stale,
                    stopped,
                }
            },
        }
    }

    /// After up to `n` rounds.
    pub open spec fn after(self, n: nat) -> Progress<W>
        decreases n,
    {
        if n == 0 {
            self.start()
        } else {
            let p = self.after((n - 1) as nat);
            if p.stopped {
                p
            } else {
                self.round(p, (n - 1) as nat)
            }
        }
    }

    /// The model that training gives.
    pub open spec fn trained(self, names: Seq<Seq<char>>) -> Ensemble<W> {
        Ensemble {
            init_score: self.init_score(),
            learning_rate: self.config.learning_rate,
            names,
            binnings: self.table.binnings,
            trees: self.after(self.config.num_iterations as nat).trees,
        }
    }

    /// Machine limits: row and feature numbers fit in 32 bits, leaf counts can be
    /// doubled, node pointers fit in 31 bits, and with categorical features the
    /// bitsets of a tree can be numbered in 16 bits.
    pub open spec fn fits(self) -> bool {
        &&& self.table.rows <= u32::MAX
        &&& self.table.codes.len() <= u32::MAX
        &&& 2 * self.config.min_data_in_leaf <= usize::MAX
        &&& self.config.min_data_in_leaf <= i64::MAX
        &&& self.config.num_leaves <= 0x4000_0000
        &&& forall|f: int|
            0 <= f < self.table.binnings.len() && (#[trigger] self.table.binnings[f]).categorical()
                ==> self.config.num_leaves <= 0x10001
    }
}

impl<W: Wide> Task<W> {
    /// In each of the first `n` rounds, a tree is grown on rows and features that
    /// exist.
    pub open spec fn samples_exist(self, n: nat) -> bool {
        forall|k: nat|
            k < n && !(#[trigger] self.after(k)).stopped ==> self.growth(self.after(k), k).valid()
    }
}

/// A tree more does not change what the trees before it score.
pub proof fn lemma_score_of_prefix<W: Wide>(
    init: W,
    rate: W,
    trees: Seq<Shape<W>>,
    tree: Shape<W>,
    row: Seq<u16>,
    n: nat,
)
    requires
        n <= trees.len(),
    ensures
        score_after(init, rate, trees.push(tree), row, n) == score_after(
            init,
            rate,
            trees,
            row,
            n,
        ),
    decreases n,
{
    if n > 0 {
        lemma_score_of_prefix(init, rate, trees, tree, row, (n - 1) as nat);
    }
}

/// While training goes on, the score of a validation row is the raw score that
/// the trees so far give it.
pub proof fn law_valid_scores<W: Wide>(task: Task<W>, n: nat, r: int)
    requires
        task.valid is Some,
        0 <= r < task.valid->0.rows,
        !task.after(n).stopped,
    ensures
        task.after(n).valid_raw.len() == task.valid->0.rows,
        task.after(n).valid_raw[r] == score_after(
            task.init_score(),
            task.config.learning_rate,
            task.after(n).trees,
            row_codes(task.valid->0.codes, r),
            n,
        ),
    decreases n,
{
    if n > 0 {
        let k = (n - 1) as nat;
        let p = task.after(k);
        law_valid_scores(task, k, r);
        law_early_stopping(task, k);
        let row = row_codes(task.valid->0.codes, r);
        let tree = task.growth(p, k).grown().tree;
        assert(task.after(n).trees == p.trees.push(tree));
        lemma_score_of_prefix(
            task.init_score(),
            task.config.learning_rate,
            p.trees,
            tree,
            row,
            k,
        );
    }
}

/// Without bagging, while training goes on, the score that a training row has
/// through the leaves it was recorded at is the raw score that the trees so far
/// give it.
pub proof fn law_training_scores<W: Wide>(task: Task<W>, n: nat, r: int)
    requires
        !task.bagging(),
        task.samples_exist(n),
        0 <= r < task.table.rows,
        !task.after(n).stopped,
    ensures
        task.after(n).raw.len() == task.table.rows,
        task.after(n).raw[r] == score_after(
            task.init_score(),
            task.config.learning_rate,
            task.after(n).trees,
            row_codes(task.table.codes, r),
            n,
        ),
    decreases n,
{
    if n > 0 {
        let k = (n - 1) as nat;
        let p = task.after(k);
        assert(!p.stopped);
        law_training_scores(task, k, r);
        law_early_stopping(task, k);
        let g = task.growth(p, k);
        assert(g.valid());
        let row = row_codes(task.table.codes, r);
        let tree = g.grown().tree;
        assert(g.rows[r] == r);
        assert(g.rows.contains(r as u32));
        law_recorded_leaf(g, r as u32);
        assert(task.after(n).trees == p.trees.push(tree));
        lemma_score_of_prefix(
            task.init_score(),
            task.config.learning_rate,
            p.trees,
            tree,
            row,
            k,
        );
    }
}

/// A drawn share stands in ascending order.
pub proof fn law_share_in_order(items: Seq<u32>, i: int, j: int)
    requires
        items.len() <= usize::MAX,
        0 <= i <= j < items.len(),
    ensures
        in_order(items)[i] <= in_order(items)[j],
{
    let keys = number_keys(items);
    lemma_order_of(keys);
    let order = order_of(keys);
    if i < j {
        assert(by_key(keys)(order[i], order[j]));
        assert(order[i] < keys.len() && order[j] < keys.len());
    }
}

/// Once training has stopped, further rounds change nothing.
pub proof fn lemma_stopped<W: Wide>(task: Task<W>, n: nat, m: nat)
    requires
        n <= m,
        task.after(n).stopped,
    ensures
        task.after(m) == task.after(n),
    decreases m,
{
    if n < m {
        lemma_stopped(task, n, (m - 1) as nat);
    }
}

/// The tree of every round is kept as long as training goes on. When it stops
/// early, the model is cut back to the trees up to the best round, and the
/// rounds since then are at least as many as configured.
pub proof fn law_early_stopping<W: Wide>(task: Task<W>, n: nat)
    ensures
        ({
            let p = task.after(n);
            &&& !p.stopped ==> p.trees.len() == n
            &&& p.stopped ==> {
                &&& task.valid is Some
                &&& p.trees.len() == p.best_iter + 1
                &&& p.trees.len() <= n
                &&& task.config.early_stopping_round > 0
                &&& p.stale >= task.config.early_stopping_round
            }
            &&& p.best_iter < n || p.best_iter == 0
        }),
    decreases n,
{
    if n > 0 {
        law_early_stopping(task, (n - 1) as nat);
    }
}

/// Without a validation set or without `early_stopping_round`, every configured
/// round gives a tree.
pub proof fn law_no_early_stopping<W: Wide>(task: Task<W>, n: nat)
    requires
        task.valid is None || task.config.early_stopping_round == 0,
    ensures
        !task.after(n).stopped,
        task.after(n).trees.len() == n,
    decreases n,
{
    if n > 0 {
        law_no_early_stopping(task, (n - 1) as nat);
    }
}

/// The best round is the last one whose score was better than the best before
/// it: its score is the best score, and no later score came below that.
pub proof fn law_best_round<W: Wide>(task: Task<W>, n: nat)
    requires
        task.valid is Some,
    ensures
        ({
            let p = task.after(n);
            let rounds = p.scores.len();
            &&& p.stale <= rounds
            &&& p.stale < rounds ==> {
                &&& p.best_iter + p.stale + 1 == rounds
                &&& p.best_score == p.scores[p.best_iter as int]
            }
            &&& p.stale == rounds ==> p.best_iter == 0 && p.best_score == W::infinite()
            &&& forall|j: int|
                rounds - p.stale <= j < rounds ==> !lt(
                    (#[trigger] p.scores[j]).sum_of(W::ratio_of(1, 1_000_000_000_000)),
                    p.best_score,
                )
        }),
        !task.after(n).stopped ==> task.after(n).scores.len() == n,
    decreases n,
{
    if n > 0 {
        law_best_round(task, (n - 1) as nat);
        let before = task.after((n - 1) as nat);
        let p = task.after(n);
        if !before.stopped {
            assert forall|j: int| p.scores.len() - p.stale <= j < p.scores.len() implies !lt(
                (#[trigger] p.scores[j]).sum_of(W::ratio_of(1, 1_000_000_000_000)),
                p.best_score,
            ) by {
                if j < before.scores.len() {
                    assert(p.scores[j] == before.scores[j]);
                }
            }
        }
    }
}

} // verus!
