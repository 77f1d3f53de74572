use vstd::prelude::*;

use crate::error::{Error, Result};
use crate::number::{at_most, constant, le, less, lt, whole, Wide};

verus! {

/// Hyperparameters for GBDT training. Names match LightGBM conventions.
///
/// Construct with `Config { num_iterations: 100, ..Config::default() }`.
/// [`Config::validate`] (the trainer calls it at the top of `fit`) reports
/// out-of-range values as [`crate::Error::Config`].
#[derive(Debug, Clone, Copy)]
pub struct Config<W> {
    /// Maximum number of boosting rounds (trees) to fit. With
    /// `early_stopping_round > 0` and a validation set, training may stop
    /// sooner and the model is truncated to the best iteration.
    pub num_iterations: usize,
    /// Shrinkage applied to each tree's leaf values when added to the running
    /// score: `score += learning_rate * leaf_value`. Must be in `(0, 1]`.
    pub learning_rate: W,
    /// Maximum number of leaves per tree. Must be `>= 2`.
    pub num_leaves: usize,
    /// Maximum tree depth. Zero or less means unlimited (let `num_leaves` cap
    /// things).
    pub max_depth: i32,
    /// Minimum number of samples in a leaf. Splits that would produce a leaf
    /// with fewer rows are rejected.
    pub min_data_in_leaf: usize,
    /// Minimum sum of hessians in a leaf.
    pub min_sum_hessian_in_leaf: W,
    /// L1 regularization on leaf values (soft-threshold in the gain formula).
    pub lambda_l1: W,
    /// L2 regularization on leaf values (denominator term in the gain formula).
    pub lambda_l2: W,
    /// Loss reduction that a split has to exceed to be accepted.
    pub min_gain_to_split: W,
    /// Added to each category's hessian when categories are ranked by gradient
    /// ratio, so that a low-count category cannot jump to an extreme rank.
    pub cat_smooth: W,
    /// Extra L2 regularization of categorical-split gains, on top of
    /// `lambda_l2`.
    pub cat_l2: W,
    /// Max categories on the scanned side of a categorical subset split.
    pub max_cat_threshold: usize,
    /// With at most this many categories left, a categorical split is
    /// one-versus-rest.
    pub max_cat_to_onehot: usize,
    /// Minimum rows for a category to take part in a categorical split; rarer
    /// categories go to the default (right) side.
    pub min_data_per_group: usize,
    /// Maximum bins per numerical feature, one of them for missing values. Must
    /// be in `[2, 65535]`.
    pub max_bin: usize,
    /// Maximum bins per categorical feature, one of them for missing values;
    /// the rarer tail collapses into missing. Must be in `[2, 65535]`.
    pub max_cat_bins: usize,
    /// Minimum samples per bin of a numerical feature. Bins with fewer samples get
    /// merged into neighbors.
    pub min_data_in_bin: usize,
    /// Per-tree feature subsample fraction in `(0, 1]`. `1` disables.
    pub feature_fraction: W,
    /// Row subsample fraction in `(0, 1]`. `1` disables. Only takes effect when
    /// `bagging_freq > 0`.
    pub bagging_fraction: W,
    /// Re-sample bagged rows every `K` iterations. `0` disables bagging.
    pub bagging_freq: usize,
    /// Stop after this many iterations without validation-metric improvement.
    /// Only active with a validation set. `0` disables. On stop, the model is
    /// truncated to `best_iter + 1` trees.
    pub early_stopping_round: usize,
    /// Seed of the random stream used for bagging and feature subsampling.
    pub seed: u64,
    /// If `true`, a front end logs the metric of each iteration.
    pub verbose: bool,
}

/// The part of a [`Config`] that decides how a single tree grows.
pub struct Rules<W> {
    pub num_leaves: usize,
    pub max_depth: i32,
    pub min_data_in_leaf: usize,
    pub min_sum_hessian_in_leaf: W,
    pub lambda_l1: W,
    pub lambda_l2: W,
    pub min_gain_to_split: W,
    pub cat_smooth: W,
    pub cat_l2: W,
    pub max_cat_threshold: usize,
    pub max_cat_to_onehot: usize,
    pub min_data_per_group: usize,
}

impl<W> Config<W> {
    /// What this configuration says about growing a tree.
    pub open spec fn rules(self) -> Rules<W> {
        Rules {
            num_leaves: self.num_leaves,
            max_depth: self.max_depth,
            min_data_in_leaf: self.min_data_in_leaf,
            min_sum_hessian_in_leaf: self.min_sum_hessian_in_leaf,
            lambda_l1: self.lambda_l1,
            lambda_l2: self.lambda_l2,
            min_gain_to_split: self.min_gain_to_split,
            cat_smooth: self.cat_smooth,
            cat_l2: self.cat_l2,
            max_cat_threshold: self.max_cat_threshold,
            max_cat_to_onehot: self.max_cat_to_onehot,
            min_data_per_group: self.min_data_per_group,
        }
    }
}

/// `x` lies in `(0, 1]`.
pub open spec fn is_fraction<W: Wide>(x: W) -> bool {
    lt(whole::<W>(0), x) && le(x, whole::<W>(1))
}

fn check_fraction<W: Wide>(x: W) -> (r: bool)
    ensures
        r == is_fraction(x),
{
    less(constant::<W>(0), x) && at_most(x, constant::<W>(1))
}

/// The default hyperparameters.
pub open spec fn default_config<W: Wide>() -> Config<W> {
    Config {
        num_iterations: 100,
        learning_rate: W::ratio_of(1, 10),
        num_leaves: 31,
        max_depth: (-1) as i32,
        min_data_in_leaf: 20,
        min_sum_hessian_in_leaf: W::ratio_of(1, 1000),
        lambda_l1: whole(0),
        lambda_l2: whole(0),
        min_gain_to_split: whole(0),
        cat_smooth: whole(10),
        cat_l2: whole(10),
        max_cat_threshold: 32,
        max_cat_to_onehot: 4,
        min_data_per_group: 100,
        max_bin: 255,
        max_cat_bins: 255,
        min_data_in_bin: 3,
        feature_fraction: whole(1),
        bagging_fraction: whole(1),
        bagging_freq: 0,
        early_stopping_round: 0,
        seed: 0,
        verbose: false,
    }
}

/// The default hyperparameters break no rule.
pub proof fn law_default_is_valid<W: Wide>()
    ensures
        default_config::<W>().problem() is None,
{
    W::constant_positive(1, 10);
    W::constant_positive(1, 1);
    W::constants_ordered(1, 10, 1, 1);
}

impl<W: Wide> Default for Config<W> {
    fn default() -> (c: Self)
        ensures
            c == default_config::<W>(),
            c.problem() is None,
    {
        proof {
            law_default_is_valid::<W>();
        }
        Config {
            num_iterations: 100,
            learning_rate: W::ratio(1, 10),
            num_leaves: 31,
            max_depth: -1,
            min_data_in_leaf: 20,
            min_sum_hessian_in_leaf: W::ratio(1, 1000),
            lambda_l1: constant(0),
            lambda_l2: constant(0),
            min_gain_to_split: constant(0),
            cat_smooth: constant(10),
            cat_l2: constant(10),
            max_cat_threshold: 32,
            max_cat_to_onehot: 4,
            min_data_per_group: 100,
            max_bin: 255,
            max_cat_bins: 255,
            min_data_in_bin: 3,
            feature_fraction: constant(1),
            bagging_fraction: constant(1),
            bagging_freq: 0,
            early_stopping_round: 0,
            seed: 0,
            verbose: false,
        }
    }
}

impl<W: Wide> Config<W> {
    /// The first rule that this configuration breaks, in the order in which
    /// [`Config::validate`] checks them.
    pub open spec fn problem(self) -> Option<Seq<char>> {
        if self.num_leaves < 2 {
            Some("num_leaves must be >= 2"@)
        } else if self.max_bin < 2 || self.max_bin > 65535 {
            Some("max_bin must be in [2, 65535]"@)
        } else if self.max_cat_bins < 2 || self.max_cat_bins > 65535 {
            Some("max_cat_bins must be in [2, 65535]"@)
        } else if !is_fraction(self.learning_rate) {
            Some("learning_rate must be in (0, 1]"@)
        } else if !is_fraction(self.feature_fraction) {
            Some("feature_fraction must be in (0, 1]"@)
        } else if !is_fraction(self.bagging_fraction) {
            Some("bagging_fraction must be in (0, 1]"@)
        } else {
            None
        }
    }

    pub fn validate(&self) -> (r: Result<()>)
        ensures
            match r {
                Ok(_) => self.problem() is None,
                Err(Error::Config(m)) => self.problem() == Some(m@),
                Err(_) => false,
            },
    {
        if self.num_leaves < 2 {
            return Err(Error::Config("num_leaves must be >= 2".to_owned()));
        }
        if self.max_bin < 2 || self.max_bin > 65535 {
            return Err(Error::Config("max_bin must be in [2, 65535]".to_owned()));
        }
        if self.max_cat_bins < 2 || self.max_cat_bins > 65535 {
            return Err(Error::Config("max_cat_bins must be in [2, 65535]".to_owned()));
        }
        if !check_fraction(self.learning_rate) {
            return Err(Error::Config("learning_rate must be in (0, 1]".to_owned()));
        }
        if !check_fraction(self.feature_fraction) {
            return Err(Error::Config("feature_fraction must be in (0, 1]".to_owned()));
        }
        if !check_fraction(self.bagging_fraction) {
            return Err(Error::Config("bagging_fraction must be in (0, 1]".to_owned()));
        }
        Ok(())
    }
}

/// A configuration is accepted exactly when a tree may have two leaves, a column two
/// bins but no more than a code can tell apart, and the learning rate and the two
/// sampling fractions lie above zero and are at most one.
pub proof fn law_accepted<W: Wide>(c: Config<W>)
    ensures
        ({
            let zero = W::ratio_of(0, 1);
            let one = W::ratio_of(1, 1);
            c.problem() is None <==> {
                &&& c.num_leaves >= 2
                &&& 2 <= c.max_bin < 0x10000
                &&& 2 <= c.max_cat_bins < 0x10000
                &&& lt(zero, c.learning_rate) && le(c.learning_rate, one)
                &&& lt(zero, c.feature_fraction) && le(c.feature_fraction, one)
                &&& lt(zero, c.bagging_fraction) && le(c.bagging_fraction, one)
            }
        }),
{
}

/// Two configurations that agree on the limits of a tree and on the regularization
/// grow trees by the same rules, whatever else they say; and those rules are the
/// values that were configured.
pub proof fn law_rules<W>(c: Config<W>, other: Config<W>)
    ensures
        c.rules() == other.rules() <==> {
            &&& c.num_leaves == other.num_leaves && c.max_depth == other.max_depth
            &&& c.min_data_in_leaf == other.min_data_in_leaf
            &&& c.min_sum_hessian_in_leaf == other.min_sum_hessian_in_leaf
            &&& c.lambda_l1 == other.lambda_l1 && c.lambda_l2 == other.lambda_l2
            &&& c.min_gain_to_split == other.min_gain_to_split
            &&& c.cat_smooth == other.cat_smooth && c.cat_l2 == other.cat_l2
            &&& c.max_cat_threshold == other.max_cat_threshold
            &&& c.max_cat_to_onehot == other.max_cat_to_onehot
            &&& c.min_data_per_group == other.min_data_per_group
        },
        c.rules().num_leaves == c.num_leaves && c.rules().max_depth == c.max_depth,
        c.rules().min_data_in_leaf == c.min_data_in_leaf,
        c.rules().min_sum_hessian_in_leaf == c.min_sum_hessian_in_leaf,
        c.rules().lambda_l1 == c.lambda_l1 && c.rules().lambda_l2 == c.lambda_l2,
        c.rules().min_gain_to_split == c.min_gain_to_split,
        c.rules().cat_smooth == c.cat_smooth && c.rules().cat_l2 == c.cat_l2,
        c.rules().max_cat_threshold == c.max_cat_threshold,
        c.rules().max_cat_to_onehot == c.max_cat_to_onehot,
        c.rules().min_data_per_group == c.min_data_per_group,
{
}

} // verus!
