//! What follows for training as a whole.

use vstd::prelude::*;

use crate::boosting::rounds::{
    law_best_round, law_early_stopping, law_valid_scores, lemma_score_of_prefix, Progress, Task,
};
use crate::config::{Config, Rules};
use crate::dataset::builder::coded_table;
use crate::dataset::{row_codes, Table};
use crate::loss::logloss_of;
use crate::model::{
    gain_total, gains_positive, law_gain_where_split, law_paths_agree, raw_scores_of, score_after,
    split_count,
};
use crate::number::{le, lt, whole, Wide};
use crate::tree::growth::Growth;
use crate::tree::laws::{law_linked_once, law_node_gains, linked_once};
use crate::tree::Shape;

verus! {

// Validation data decide how many trees are kept, and nothing else.

impl<W: Wide> Task<W> {
    /// The same task without validation data, under another
    /// `early_stopping_round`.
    pub open spec fn unwatched(self, early_stopping_round: usize) -> Task<W> {
        Task {
            config: Config { early_stopping_round, ..self.config },
            table: self.table,
            weights: self.weights,
            valid: None,
        }
    }
}

/// As long as training goes on, validation data do not touch what trees are
/// grown from. The trees that are kept are the first of those that are grown
/// without them.
proof fn lemma_unwatched<W: Wide>(task: Task<W>, rounds: usize, n: nat)
    ensures
        ({
            let p = task.after(n);
            let q = task.unwatched(rounds).after(n);
            &&& !q.stopped
            &&& q.trees.len() == n
            &&& p.trees.len() <= n
            &&& p.trees == q.trees.take(p.trees.len() as int)
            &&& !p.stopped ==> {
                &&& p.draws == q.draws
                &&& p.bagged == q.bagged
                &&& p.raw == q.raw
                &&& p.trees == q.trees
            }
        }),
    decreases n,
{
    let other = task.unwatched(rounds);
    law_early_stopping(task, n);
    law_early_stopping(other, n);
    if n > 0 {
        let k = (n - 1) as nat;
        lemma_unwatched(task, rounds, k);
        let p = task.after(k);
        let q = other.after(k);
        let next = other.after(n);
        assert(next.trees == q.trees.push(other.growth(q, k).grown().tree));
        if p.stopped {
            assert(p.trees =~= next.trees.take(p.trees.len() as int));
        } else {
            assert(task.bag(p, k) == other.bag(q, k));
            assert(task.growth(p, k) == other.growth(q, k));
            assert(task.after(n).trees =~= next.trees.take(task.after(n).trees.len() as int));
        }
    }
}

/// Validation data never influence how a tree is grown, only how many are kept.
/// Without early stopping the model is that of training without validation data.
/// With it, the model has the first of those trees and is otherwise the same.
pub proof fn law_validation_only_cuts<W: Wide>(
    task: Task<W>,
    early_stopping_round: usize,
    names: Seq<Seq<char>>,
)
    ensures
        ({
            let watched = task.trained(names);
            let unwatched = task.unwatched(early_stopping_round).trained(names);
            &&& watched.trees.len() <= unwatched.trees.len() == task.config.num_iterations
            &&& watched == unwatched.first_trees(watched.trees.len() as int)
            &&& task.config.early_stopping_round == 0 ==> watched == unwatched
        }),
{
    let n = task.config.num_iterations as nat;
    lemma_unwatched(task, early_stopping_round, n);
    law_early_stopping(task, n);
    if task.config.early_stopping_round == 0 {
        assert(!task.after(n).stopped);
    }
}

// Settings that take no part.

/// Everything that training reads is the same in both tasks: settings of
/// sampling only where something is sampled.
spec fn alike<W: Wide>(a: Task<W>, b: Task<W>) -> bool {
    &&& a.table == b.table
    &&& a.weights == b.weights
    &&& a.valid == b.valid
    &&& a.config.rules() == b.config.rules()
    &&& a.config.num_iterations == b.config.num_iterations
    &&& a.config.learning_rate == b.config.learning_rate
    &&& a.config.early_stopping_round == b.config.early_stopping_round
    &&& a.bagging() == b.bagging()
    &&& a.bagging() ==> {
        &&& a.config.bagging_freq == b.config.bagging_freq
        &&& a.config.bagging_fraction == b.config.bagging_fraction
    }
    &&& a.subsampling() == b.subsampling()
    &&& a.subsampling() ==> a.config.feature_fraction == b.config.feature_fraction
    &&& a.bagging() || a.subsampling() ==> a.config.seed == b.config.seed
}

proof fn lemma_alike<W: Wide>(a: Task<W>, b: Task<W>, n: nat)
    requires
        alike(a, b),
    ensures
        b.after(n) == (Progress { draws: b.after(n).draws, ..a.after(n) }),
        a.bagging() || a.subsampling() ==> a.after(n).draws == b.after(n).draws,
    decreases n,
{
    if n > 0 {
        let k = (n - 1) as nat;
        lemma_alike(a, b, k);
        let p = a.after(k);
        let q = b.after(k);
        if !p.stopped {
            assert(a.bag(p, k).0 == b.bag(q, k).0);
            assert(a.growth(p, k) == b.growth(q, k));
        }
    } else {
        assert(a.start().raw =~= b.start().raw);
    }
}

/// Without bagging, `bagging_fraction` takes no part.
pub proof fn law_bagging_fraction_unused<W: Wide>(
    task: Task<W>,
    bagging_fraction: W,
    names: Seq<Seq<char>>,
)
    requires
        task.config.bagging_freq == 0,
    ensures
        (Task { config: Config { bagging_fraction, ..task.config }, ..task }).trained(names)
            == task.trained(names),
{
    let other = Task { config: Config { bagging_fraction, ..task.config }, ..task };
    lemma_alike(task, other, task.config.num_iterations as nat);
}

/// Where neither rows nor features are sampled, the seed takes no part.
pub proof fn law_seed_unused<W: Wide>(task: Task<W>, seed: u64, names: Seq<Seq<char>>)
    requires
        !task.bagging(),
        !task.subsampling(),
    ensures
        (Task { config: Config { seed, ..task.config }, ..task }).trained(names) == task.trained(
            names,
        ),
{
    let other = Task { config: Config { seed, ..task.config }, ..task };
    lemma_alike(task, other, task.config.num_iterations as nat);
}

/// Whether rounds are logged takes no part.
pub proof fn law_verbose_unused<W: Wide>(task: Task<W>, verbose: bool, names: Seq<Seq<char>>)
    ensures
        (Task { config: Config { verbose, ..task.config }, ..task }).trained(names)
            == task.trained(names),
{
    let other = Task { config: Config { verbose, ..task.config }, ..task };
    lemma_alike(task, other, task.config.num_iterations as nat);
}

// What early stopping watches.

/// A recorded score is the loss on the raw scores that its round led to.
proof fn lemma_recorded<W: Wide>(task: Task<W>, n: nat, i: int)
    requires
        task.valid is Some,
        0 <= i < task.after(n).scores.len(),
    ensures
        i < n,
        !task.after(i as nat).stopped,
        task.after(n).scores[i] == logloss_of(
            task.after((i + 1) as nat).valid_raw,
            task.valid->0.labels,
        ),
    decreases n,
{
    if n > 0 {
        let k = (n - 1) as nat;
        law_best_round(task, k);
        let p = task.after(k);
        if i < p.scores.len() {
            lemma_recorded(task, k, i);
        } else {
            assert(i == k);
        }
    }
}

/// The scores of the validation rows in the round after `n`, through all trees
/// grown up to it.
proof fn lemma_watched_row<W: Wide>(task: Task<W>, n: nat, r: int)
    requires
        task.valid is Some,
        0 <= r < task.valid->0.rows,
        !task.after(n).stopped,
    ensures
        task.after(n + 1).valid_raw.len() == task.valid->0.rows,
        task.after(n + 1).valid_raw[r] == score_after(
            task.init_score(),
            task.config.learning_rate,
            task.unwatched(0).after(n + 1).trees,
            row_codes(task.valid->0.codes, r),
            n + 1,
        ),
{
    let other = task.unwatched(0);
    let p = task.after(n);
    let q = other.after(n);
    lemma_unwatched(task, 0, n);
    law_valid_scores(task, n, r);
    assert(task.bag(p, n) == other.bag(q, n));
    assert(task.growth(p, n) == other.growth(q, n));
    let tree = task.growth(p, n).grown().tree;
    assert(other.after(n + 1).trees == q.trees.push(tree));
    lemma_score_of_prefix(
        task.init_score(),
        task.config.learning_rate,
        q.trees,
        tree,
        row_codes(task.valid->0.codes, r),
        n,
    );
}

/// The first trees grown are not touched by later rounds.
proof fn lemma_first_trees<W: Wide>(task: Task<W>, k: nat, n: nat)
    requires
        k <= n,
    ensures
        task.unwatched(0).after(n).trees.len() == n,
        task.unwatched(0).after(k).trees == task.unwatched(0).after(n).trees.take(k as int),
    decreases n,
{
    let other = task.unwatched(0);
    lemma_unwatched(task, 0, n);
    lemma_unwatched(task, 0, k);
    if k < n {
        lemma_first_trees(task, k, (n - 1) as nat);
        let q = other.after((n - 1) as nat);
        assert(other.after(n).trees == q.trees.push(
            other.growth(q, (n - 1) as nat).grown().tree,
        ));
    }
    assert(other.after(k).trees =~= other.after(n).trees.take(k as int));
}

/// The score of every round is the loss, on the raw validation rows, of the model
/// with the trees of the rounds up to it.
pub proof fn law_validation_score<W: Wide>(
    task: Task<W>,
    columns: Seq<Seq<W>>,
    labels: Seq<W::Narrow>,
    names: Seq<Seq<char>>,
    i: int,
)
    requires
        columns.len() > 0,
        columns.len() == task.table.binnings.len(),
        forall|f: int| 0 <= f < columns.len() ==> (#[trigger] columns[f]).len() == labels.len(),
        task.valid == Some(coded_table(columns, task.table.binnings, labels)),
        0 <= i < task.after(task.config.num_iterations as nat).scores.len(),
    ensures
        i < task.config.num_iterations,
        task.after(task.config.num_iterations as nat).scores[i] == task.unwatched(0).trained(
            names,
        ).first_trees(i + 1).loss(columns, labels),
{
    let n = task.config.num_iterations as nat;
    let k = (i + 1) as nat;
    let v = task.valid->0;
    let model = task.unwatched(0).trained(names).first_trees(i + 1);
    lemma_recorded(task, n, i);
    lemma_first_trees(task, k, n);
    assert(columns[0].len() == labels.len());
    let raw = task.after(k).valid_raw;
    let expected = raw_scores_of(model, columns, labels.len());
    assert forall|r: int| 0 <= r < labels.len() implies #[trigger] raw[r] == expected[r] by {
        lemma_watched_row(task, i as nat, r);
        law_paths_agree(model, columns, v.codes, labels.len(), r);
    }
    lemma_watched_rows(task, k);
    assert(raw =~= expected);
}

/// There are as many raw scores as validation rows.
proof fn lemma_watched_rows<W: Wide>(task: Task<W>, n: nat)
    requires
        task.valid is Some,
    ensures
        task.after(n).valid_raw.len() == task.valid->0.rows,
    decreases n,
{
    if n > 0 {
        lemma_watched_rows(task, (n - 1) as nat);
    }
}

/// The amount by which a score has to be better to count.
pub open spec fn tolerance<W: Wide>() -> W {
    W::ratio_of(1, 1_000_000_000_000)
}

/// No score so far is better than the best one.
proof fn lemma_none_better<W: Wide>(task: Task<W>, n: nat)
    requires
        task.valid is Some,
    ensures
        forall|j: int|
            0 <= j < task.after(n).scores.len() ==> !lt(
                (#[trigger] task.after(n).scores[j]).sum_of(tolerance()),
                task.after(n).best_score,
            ),
    decreases n,
{
    if n > 0 {
        let before = task.after((n - 1) as nat);
        let p = task.after(n);
        lemma_none_better(task, (n - 1) as nat);
        W::constants_ordered(0, 1, 1, 1_000_000_000_000);
        if !before.stopped {
            let score = p.scores.last();
            if score.rank_of() is Some {
                W::sum_grows(score, tolerance());
            }
            assert forall|j: int| 0 <= j < p.scores.len() implies !lt(
                (#[trigger] p.scores[j]).sum_of(tolerance()),
                p.best_score,
            ) by {
                if j < before.scores.len() {
                    assert(p.scores[j] == before.scores[j]);
                }
            }
        }
    }
}

/// When training stops early, the model that is kept is the best one: no model
/// with the trees of the first `i` rounds has a loss on the raw validation rows
/// that is lower by more than the tolerance. Up to the number of trees that are
/// kept, those models are the kept model cut to its first `i` trees.
pub proof fn law_kept_model_is_best<W: Wide>(
    task: Task<W>,
    columns: Seq<Seq<W>>,
    labels: Seq<W::Narrow>,
    names: Seq<Seq<char>>,
    i: int,
)
    requires
        columns.len() > 0,
        columns.len() == task.table.binnings.len(),
        forall|f: int| 0 <= f < columns.len() ==> (#[trigger] columns[f]).len() == labels.len(),
        task.valid == Some(coded_table(columns, task.table.binnings, labels)),
        task.after(task.config.num_iterations as nat).stopped,
        1 <= i <= task.after(task.config.num_iterations as nat).scores.len(),
    ensures
        ({
            let kept = task.trained(names);
            let others = task.unwatched(0).trained(names).first_trees(i);
            &&& !lt(others.loss(columns, labels).sum_of(tolerance()), kept.loss(columns, labels))
            &&& i <= kept.trees.len() ==> others == kept.first_trees(i)
        }),
{
    let n = task.config.num_iterations as nat;
    let p = task.after(n);
    let kept = task.trained(names);
    let all = task.unwatched(0).trained(names);
    law_best_round(task, n);
    law_early_stopping(task, n);
    law_validation_only_cuts(task, 0, names);
    lemma_none_better(task, n);
    let best = p.best_iter as int;
    law_validation_score(task, columns, labels, names, i - 1);
    law_validation_score(task, columns, labels, names, best);
    assert(kept == all.first_trees(best + 1));
    if i <= kept.trees.len() {
        assert(kept.trees.take(i) =~= all.trees.take(i));
    }
    assert(!lt(p.scores[i - 1].sum_of(tolerance()), p.best_score));
    if p.scores[best].rank_of() is Some {
        p.scores[best].infinite_is_last();
    }
}

// The trees of a trained model.

/// The trees after a round are the first of those before it and its own.
proof fn lemma_round_trees<W: Wide>(task: Task<W>, p: Progress<W>, iter: nat)
    requires
        p.trees.len() == iter,
        p.best_iter <= iter,
    ensures
        ({
            let trees = task.round(p, iter).trees;
            let all = p.trees.push(task.growth(p, iter).grown().tree);
            trees.len() <= all.len() && trees == all.take(trees.len() as int)
        }),
{
    let all = p.trees.push(task.growth(p, iter).grown().tree);
    assert(all.take(all.len() as int) =~= all);
}

/// A tree was grown on the given data under the given rules.
pub open spec fn is_grown<W: Wide>(tree: Shape<W>, table: Table<W>, rules: Rules<W>) -> bool {
    exists|g: Growth<W>| #[trigger]
        g.valid() && g.table == table && g.rules == rules && g.grown().tree == tree
}

/// Every tree that is kept was grown on the training data under the configured
/// rules.
pub proof fn law_trees_are_grown<W: Wide>(task: Task<W>, n: nat)
    requires
        task.samples_exist(n),
    ensures
        forall|t: int|
            0 <= t < task.after(n).trees.len() ==> is_grown(
                #[trigger] task.after(n).trees[t],
                task.table,
                task.config.rules(),
            ),
    decreases n,
{
    if n > 0 {
        let k = (n - 1) as nat;
        let p = task.after(k);
        law_trees_are_grown(task, k);
        law_early_stopping(task, k);
        if !p.stopped {
            let g = task.growth(p, k);
            assert(g.valid());
            let trees = task.after(n).trees;
            lemma_round_trees(task, p, k);
            assert forall|t: int| 0 <= t < trees.len() implies is_grown(
                #[trigger] trees[t],
                task.table,
                task.config.rules(),
            ) by {
                if t < p.trees.len() {
                    assert(trees[t] == p.trees[t]);
                } else {
                    assert(trees[t] == g.grown().tree);
                }
            }
        }
    }
}

/// In every tree of a trained model, each node but the first is named by exactly
/// one child pointer, that of a node before it, and the pointers to leaves are
/// distinct.
pub proof fn law_trained_trees_linked<W: Wide>(task: Task<W>, names: Seq<Seq<char>>, t: int)
    requires
        task.samples_exist(task.config.num_iterations as nat),
        0 <= t < task.trained(names).trees.len(),
    ensures
        linked_once(task.trained(names).trees[t].nodes),
{
    let tree = task.trained(names).trees[t];
    law_trees_are_grown(task, task.config.num_iterations as nat);
    assert(is_grown(tree, task.table, task.config.rules()));
    let g = choose|g: Growth<W>| #[trigger]
        g.valid() && g.table == task.table && g.rules == task.config.rules() && g.grown().tree
            == tree;
    law_linked_once(g);
}

/// In a trained model a feature has a gain above zero exactly if some node splits
/// on it, as long as `min_gain_to_split` is not negative and the gains compare.
pub proof fn law_trained_gain_where_split<W: Wide>(task: Task<W>, names: Seq<Seq<char>>, f: int)
    requires
        task.samples_exist(task.config.num_iterations as nat),
        le(whole(0), task.config.min_gain_to_split),
        forall|t: int, k: int|
            #![trigger task.trained(names).trees[t].node_gains[k]]
            0 <= t < task.trained(names).trees.len() && 0 <= k < task.trained(
                names,
            ).trees[t].node_gains.len() ==> task.trained(names).trees[t].node_gains[k].rank_of()
                is Some,
    ensures
        ({
            let trees = task.trained(names).trees;
            lt(whole(0), gain_total(trees, f, trees.len())) <==> split_count(
                trees,
                f,
                trees.len(),
            ) > 0
        }),
{
    let trees = task.trained(names).trees;
    law_trees_are_grown(task, task.config.num_iterations as nat);
    assert forall|t: int| 0 <= t < trees.len() implies gains_positive(#[trigger] trees[t]) by {
        assert(is_grown(trees[t], task.table, task.config.rules()));
        let g = choose|g: Growth<W>| #[trigger]
            g.valid() && g.table == task.table && g.rules == task.config.rules()
                && g.grown().tree == trees[t];
        law_node_gains(g);
        assert forall|k: int| 0 <= k < trees[t].node_gains.len() implies lt(
            whole(0),
            #[trigger] trees[t].node_gains[k],
        ) by {
            assert(!le(trees[t].node_gains[k], task.config.min_gain_to_split));
            assert(task.trained(names).trees[t].node_gains[k].rank_of() is Some);
        }
    }
    law_gain_where_split(trees, f, trees.len());
}

} // verus!
