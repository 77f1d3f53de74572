//! What every round of boosting does.

use vstd::arithmetic::div_mod::{
    lemma_fundamental_div_mod, lemma_fundamental_div_mod_converse,
};
use vstd::prelude::*;

use crate::boosting::rounds::{
    drawn_share, in_order, law_share_in_order, number_keys, Task,
};
use crate::dataset::laws::lemma_mapped_multiset;
use crate::dataset::row_codes;
use crate::draws::{chacha8_shuffle, Draws};
use crate::loss::{gradients_of, logloss_of};
use crate::number::{lt, whole, Wide};
use crate::order::{lemma_order_of, order_of, positions};
use crate::tree::histogram::every_row;
use crate::tree::laws::{law_recorded_leaf, law_unsampled_row};

verus! {

// Sampling.

/// How many of `n` items a share of them is: the fraction rounded up, at least one
/// and at most all.
pub open spec fn is_share_of<W: Wide>(n: nat, fraction: W, m: nat) -> bool {
    let up = whole::<W>(n as u64).product_of(fraction).ceil_of();
    &&& 1 <= up <= n ==> m == up
    &&& up < 1 ==> m == 1
    &&& up > n && up >= 1 ==> m == n
}

/// `picked` are the first items of a shuffle of the numbers below `n`, made at the
/// given place of the random stream, in ascending order; as many as the fraction
/// says. The stream goes on at `next`.
pub open spec fn is_drawn<W: Wide>(
    n: nat,
    fraction: W,
    draws: Draws,
    picked: Seq<u32>,
    next: Draws,
) -> bool {
    let all = Seq::new(n, |i: int| i as u32);
    let (shuffled, pos) = chacha8_shuffle(draws.seed, draws.pos, all);
    &&& next == Draws { seed: draws.seed, pos }
    &&& exists|m: nat| #[trigger]
        is_share_of(n, fraction, m) && picked.to_multiset() == shuffled.take(m as int).to_multiset()
    &&& forall|i: int, j: int|
        #![trigger picked[i], picked[j]]
        0 <= i <= j < picked.len() ==> picked[i] <= picked[j]
}

proof fn lemma_in_order(items: Seq<u32>)
    requires
        items.len() <= usize::MAX,
    ensures
        in_order(items).to_multiset() == items.to_multiset(),
        forall|i: int, j: int|
            #![trigger in_order(items)[i], in_order(items)[j]]
            0 <= i <= j < items.len() ==> in_order(items)[i] <= in_order(items)[j],
{
    let keys = number_keys(items);
    lemma_order_of(keys);
    let pick = |p: usize| items[p as int];
    let all = positions(0, items.len() as int);
    lemma_mapped_multiset(order_of(keys), all, pick);
    assert(order_of(keys).map_values(pick) =~= in_order(items));
    assert(all.map_values(pick) =~= items);
    assert forall|i: int, j: int|
        #![trigger in_order(items)[i], in_order(items)[j]]
        0 <= i <= j < items.len() implies in_order(items)[i] <= in_order(items)[j] by {
        law_share_in_order(items, i, j);
    }
}

proof fn lemma_drawn<W: Wide>(n: nat, fraction: W, draws: Draws)
    requires
        drawn_share(n, fraction, draws).0.len() <= usize::MAX,
    ensures
        is_drawn(
            n,
            fraction,
            draws,
            drawn_share(n, fraction, draws).0,
            drawn_share(n, fraction, draws).1,
        ),
{
    let all = Seq::new(n, |i: int| i as u32);
    assert(every_row(n) =~= all);
    let (shuffled, pos) = chacha8_shuffle(draws.seed, draws.pos, all);
    let up = whole::<W>(n as u64).product_of(fraction).ceil_of();
    let m: nat = if up < 1 {
        1
    } else if up > n {
        n
    } else {
        up as nat
    };
    assert(is_share_of(n, fraction, m));
    lemma_in_order(shuffled.take(m as int));
}

/// Training that goes on after `n` rounds went on before.
proof fn lemma_going<W: Wide>(task: Task<W>, n: nat, m: nat)
    requires
        m <= n,
        !task.after(n).stopped,
    ensures
        !task.after(m).stopped,
    decreases n,
{
    if m < n {
        lemma_going(task, (n - 1) as nat, m);
    }
}

/// With bagging, in every round whose number is a multiple of `bagging_freq` a new
/// share of the rows is drawn, at the place that the random stream has come to. In
/// every other round the rows are those of the round before.
pub proof fn law_bag_of_round<W: Wide>(task: Task<W>, k: nat)
    requires
        lt(task.config.bagging_fraction, whole(1)),
        task.config.bagging_freq > 0,
        !task.after(k).stopped,
        task.growth(task.after(k), k).valid(),
    ensures
        ({
            let rows = task.growth(task.after(k), k).rows;
            if k % (task.config.bagging_freq as nat) == 0 {
                exists|next: Draws| #[trigger]
                    is_drawn(
                        task.table.rows,
                        task.config.bagging_fraction,
                        task.after(k).draws,
                        rows,
                        next,
                    )
            } else {
                k > 0 && rows == task.growth(task.after((k - 1) as nat), (k - 1) as nat).rows
            }
        }),
{
    let p = task.after(k);
    if k % (task.config.bagging_freq as nat) == 0 {
        lemma_drawn(task.table.rows, task.config.bagging_fraction, p.draws);
    } else {
        assert(k > 0) by {
            if k == 0 {
                assert(0nat % (task.config.bagging_freq as nat) == 0);
            }
        }
        lemma_going(task, k, (k - 1) as nat);
    }
}

/// With bagging, the tree of round `k` is grown on the rows that were drawn in the
/// last round before it, or at it, whose number is a multiple of `bagging_freq`.
pub proof fn law_bag_is_kept<W: Wide>(task: Task<W>, k: nat)
    requires
        lt(task.config.bagging_fraction, whole(1)),
        task.config.bagging_freq > 0,
        !task.after(k).stopped,
        task.samples_exist(k + 1),
    ensures
        ({
            let drawn_in = (k - k % (task.config.bagging_freq as nat)) as nat;
            &&& task.growth(task.after(k), k).rows == task.growth(
                task.after(drawn_in),
                drawn_in,
            ).rows
            &&& exists|next: Draws| #[trigger]
                is_drawn(
                    task.table.rows,
                    task.config.bagging_fraction,
                    task.after(drawn_in).draws,
                    task.growth(task.after(k), k).rows,
                    next,
                )
        }),
    decreases k,
{
    let freq = task.config.bagging_freq as nat;
    assert(task.growth(task.after(k), k).valid());
    law_bag_of_round(task, k);
    if k % freq != 0 {
        let j = (k - 1) as nat;
        lemma_going(task, k, j);
        assert(task.samples_exist(j + 1));
        law_bag_is_kept(task, j);
        assert(k - k % freq == j - j % freq) by {
            lemma_fundamental_div_mod(k as int, freq as int);
            lemma_fundamental_div_mod_converse(
                j as int,
                freq as int,
                k as int / freq as int,
                k % freq - 1,
            );
        }
    } else {
        assert((k - k % freq) as nat == k);
    }
}

/// Without bagging every tree is grown on all rows.
pub proof fn law_all_rows<W: Wide>(task: Task<W>, k: nat)
    requires
        !lt(task.config.bagging_fraction, whole(1)) || task.config.bagging_freq == 0,
    ensures
        task.growth(task.after(k), k).rows == Seq::new(task.table.rows, |i: int| i as u32),
{
}

/// After the rows of round `k` are drawn, if any are, the random stream stands at
/// `between`.
pub open spec fn rows_are_drawn<W: Wide>(task: Task<W>, k: nat, between: Draws) -> bool {
    let p = task.after(k);
    if lt(task.config.bagging_fraction, whole(1)) && task.config.bagging_freq > 0 && k % (
    task.config.bagging_freq as nat) == 0 {
        is_drawn(
            task.table.rows,
            task.config.bagging_fraction,
            p.draws,
            task.growth(p, k).rows,
            between,
        )
    } else {
        between == p.draws
    }
}

/// The features of round `k` are drawn from `between` on, if any are, and leave the
/// random stream where round `k + 1` finds it.
pub open spec fn features_are_drawn<W: Wide>(task: Task<W>, k: nat, between: Draws) -> bool {
    let n = task.table.codes.len();
    let features = task.growth(task.after(k), k).features;
    let next = task.after(k + 1).draws;
    if lt(task.config.feature_fraction, whole(1)) {
        exists|picked: Seq<u32>| #[trigger]
            is_drawn(n, task.config.feature_fraction, between, picked, next) && features
                == Seq::new(picked.len(), |i: int| picked[i] as usize)
    } else {
        next == between && features == Seq::new(n, |f: int| f as usize)
    }
}

/// In every round the features are drawn anew, at the place where the random stream
/// stands after the rows were drawn, if any were; without `feature_fraction` below
/// one, all features take part and nothing is drawn. The next round goes on where
/// this one left the stream, which started at the seed.
pub proof fn law_features_of_round<W: Wide>(task: Task<W>, k: nat)
    requires
        !task.after(k).stopped,
        task.growth(task.after(k), k).valid(),
        task.growth(task.after(k), k).features.len() <= usize::MAX,
    ensures
        task.after(0).draws == (Draws { seed: task.config.seed, pos: 0 }),
        exists|between: Draws| #[trigger]
            rows_are_drawn(task, k, between) && features_are_drawn(task, k, between),
{
    let p = task.after(k);
    let g = task.growth(p, k);
    let n = task.table.codes.len();
    let between = task.bag(p, k).1;
    assert(rows_are_drawn(task, k, between)) by {
        if task.bagging() && k % (task.config.bagging_freq as nat) == 0 {
            lemma_drawn(task.table.rows, task.config.bagging_fraction, p.draws);
        }
    }
    assert(features_are_drawn(task, k, between)) by {
        assert(task.after(k + 1) == task.round(p, k));
        if lt(task.config.feature_fraction, whole(1)) {
            let (picked, next) = drawn_share(n, task.config.feature_fraction, between);
            assert(g.features.len() == picked.len());
            lemma_drawn(n, task.config.feature_fraction, between);
            assert(task.after(k + 1).draws == next);
            assert(g.features =~= Seq::new(picked.len(), |i: int| picked[i] as usize));
            assert(is_drawn(n, task.config.feature_fraction, between, picked, next));
        } else {
            assert(g.features =~= Seq::new(n, |f: int| f as usize));
        }
    }
}

// Scores.

/// There is a raw score for every row.
proof fn lemma_score_counts<W: Wide>(task: Task<W>, n: nat)
    ensures
        task.after(n).raw.len() == task.table.rows,
        task.valid matches Some(v) ==> task.after(n).valid_raw.len() == v.rows,
    decreases n,
{
    if n > 0 {
        lemma_score_counts(task, (n - 1) as nat);
    }
}

/// Boosting starts every row at the init score. The tree of a round is grown on the
/// gradients of the scores that the rounds before led to. It then moves the score of
/// every training row by the learning rate times a leaf value: of the leaf that the
/// tree leads the row to, or of leaf 0 where the row was not sampled.
pub proof fn law_round_scores<W: Wide>(task: Task<W>, k: nat, r: int)
    requires
        !task.after(k).stopped,
        task.growth(task.after(k), k).valid(),
        0 <= r < task.table.rows,
    ensures
        task.after(0).raw == Seq::new(task.table.rows, |i: int| task.init_score()),
        ({
            let p = task.after(k);
            let g = task.growth(p, k);
            let tree = g.grown().tree;
            let value = if g.rows.contains(r as u32) {
                tree.leaf_values[tree.leaf_of(row_codes(task.table.codes, r))]
            } else {
                tree.leaf_values[0]
            };
            &&& g.gradhess == gradients_of(p.raw, task.table.labels, task.weights)
            &&& g.table == task.table
            &&& task.after(k + 1).raw[r] == p.raw[r].sum_of(
                task.config.learning_rate.product_of(value),
            )
            &&& task.after(k + 1).raw.len() == task.table.rows
        }),
{
    let p = task.after(k);
    let g = task.growth(p, k);
    lemma_score_counts(task, k);
    if g.rows.contains(r as u32) {
        law_recorded_leaf(g, r as u32);
    } else {
        law_unsampled_row(g, r);
    }
}

/// A validation row starts at the init score, too, and every round moves it by the
/// learning rate times the value of the leaf that the tree leads it to. The score of
/// the round is the loss on all of them.
pub proof fn law_validation_scores<W: Wide>(task: Task<W>, k: nat, r: int)
    requires
        task.valid is Some,
        !task.after(k).stopped,
        0 <= r < task.valid->0.rows,
    ensures
        task.after(0).valid_raw == Seq::new(task.valid->0.rows, |i: int| task.init_score()),
        ({
            let p = task.after(k);
            let next = task.after(k + 1);
            let tree = task.growth(p, k).grown().tree;
            let codes = Seq::new(
                task.valid->0.codes.len(),
                |f: int| task.valid->0.codes[f][r],
            );
            &&& next.valid_raw[r] == p.valid_raw[r].sum_of(
                task.config.learning_rate.product_of(tree.leaf_values[tree.leaf_of(codes)]),
            )
            &&& next.scores == p.scores.push(logloss_of(next.valid_raw, task.valid->0.labels))
        }),
{
    lemma_score_counts(task, k);
    assert(row_codes(task.valid->0.codes, r) =~= Seq::new(
        task.valid->0.codes.len(),
        |f: int| task.valid->0.codes[f][r],
    ));
}

/// Training goes on only as long as fewer rounds than `early_stopping_round` have
/// passed since the best one, where it is watched at all.
pub proof fn law_goes_on<W: Wide>(task: Task<W>, n: nat)
    requires
        !task.after(n).stopped,
        task.valid is Some,
        task.config.early_stopping_round > 0,
    ensures
        task.after(n).stale < task.config.early_stopping_round,
    decreases n,
{
    if n > 0 {
        lemma_going(task, n, (n - 1) as nat);
        law_goes_on(task, (n - 1) as nat);
    }
}

} // verus!
