use vstd::prelude::*;

use crate::config::{Config, Rules};
use crate::dataset::BinMapper;
use crate::number::{at_most, constant, le, less, lt, whole, Wide};
use crate::order::{ascending_key, order_by_key, order_of, positions, rank_ascending};
use crate::tree::histogram::{FeatureHistogram, HistBin};
use crate::tree::MissingDir;

verus! {

/// Best split found for a single feature.
#[derive(Debug, Clone)]
pub struct SplitInfo<W> {
    pub feature: usize,
    /// Inclusive upper bound of the left branch in bin-code space (numeric
    /// splits only; unused when `cat_left_bins` is `Some`).
    pub threshold_bin: u16,
    pub threshold_value: W,
    pub missing_dir: MissingDir,
    /// `Some(bins)` for a categorical subset split: the bin codes routed left.
    pub cat_left_bins: Option<Vec<u16>>,
    pub gain: W,
    pub left_sum_grad: W,
    pub left_sum_hess: W,
    pub left_count: u32,
    pub right_sum_grad: W,
    pub right_sum_hess: W,
    pub right_count: u32,
}

/// What a [`SplitInfo`] says.
#[verifier::ext_equal]
pub struct Split<W> {
    pub feature: usize,
    pub threshold_bin: u16,
    pub threshold_value: W,
    pub missing_dir: MissingDir,
    pub cat_left_bins: Option<Seq<u16>>,
    pub gain: W,
    pub left_sum_grad: W,
    pub left_sum_hess: W,
    pub left_count: u32,
    pub right_sum_grad: W,
    pub right_sum_hess: W,
    pub right_count: u32,
}

impl<W> View for SplitInfo<W> {
    type V = Split<W>;

    open spec fn view(&self) -> Split<W> {
        Split {
            feature: self.feature,
            threshold_bin: self.threshold_bin,
            threshold_value: self.threshold_value,
            missing_dir: self.missing_dir,
            cat_left_bins: match self.cat_left_bins {
                Some(bins) => Some(bins@),
                None => None,
            },
            gain: self.gain,
            left_sum_grad: self.left_sum_grad,
            left_sum_hess: self.left_sum_hess,
            left_count: self.left_count,
            right_sum_grad: self.right_sum_grad,
            right_sum_hess: self.right_sum_hess,
            right_count: self.right_count,
        }
    }
}

/// What a search for a split found.
pub open spec fn found<W>(split: Option<SplitInfo<W>>) -> Option<Split<W>> {
    match split {
        Some(s) => Some(s@),
        None => None,
    }
}

/// The gradient sum moved towards zero by `lambda_l1`.
pub open spec fn soft_threshold<W: Wide>(g: W, lambda_l1: W) -> W {
    if lt(whole::<W>(0), lambda_l1) {
        if lt(lambda_l1, g) {
            g.difference_of(lambda_l1)
        } else if lt(g, lambda_l1.negation_of()) {
            g.sum_of(lambda_l1)
        } else {
            whole(0)
        }
    } else {
        g
    }
}

/// The optimal leaf weight for the sums `(g, h)`.
pub open spec fn leaf_weight<W: Wide>(g: W, h: W, lambda_l1: W, lambda_l2: W) -> W {
    soft_threshold(g, lambda_l1).negation_of().quotient_of(h.sum_of(lambda_l2))
}

/// The gain contribution of a node with the sums `(g, h)`.
pub open spec fn score_of<W: Wide>(g: W, h: W, lambda_l1: W, lambda_l2: W) -> W {
    soft_threshold(g, lambda_l1).product_of(soft_threshold(g, lambda_l1)).quotient_of(
        h.sum_of(lambda_l2),
    )
}

fn shrink<W: Wide>(g: W, lambda_l1: W) -> (r: W)
    ensures
        r == soft_threshold(g, lambda_l1),
{
    if less(constant::<W>(0), lambda_l1) {
        if less(lambda_l1, g) {
            g.minus(lambda_l1)
        } else if less(g, lambda_l1.negate()) {
            g.plus(lambda_l1)
        } else {
            constant(0)
        }
    } else {
        g
    }
}

/// Apply L1/L2 to compute the optimal leaf weight given (G, H).
pub fn threshold_leaf<W: Wide>(g: W, h: W, lambda_l1: W, lambda_l2: W) -> (r: W)
    ensures
        r == leaf_weight(g, h, lambda_l1, lambda_l2),
{
    shrink(g, lambda_l1).negate().over(h.plus(lambda_l2))
}

/// Gain contribution of a node with sums (G, H), with L1/L2 regularization.
pub fn node_score<W: Wide>(g: W, h: W, lambda_l1: W, lambda_l2: W) -> (r: W)
    ensures
        r == score_of(g, h, lambda_l1, lambda_l2),
{
    let t: W = shrink(g, lambda_l1);
    t.times(t).over(h.plus(lambda_l2))
}

/// Gradient sum, hessian sum and row count of a group of rows.
#[derive(Clone, Copy)]
pub struct Sums<W> {
    pub grad: W,
    pub hess: W,
    pub count: i64,
}

/// Adds one histogram bin to a group.
pub open spec fn grown<W: Wide>(s: Sums<W>, bin: HistBin<W>) -> Sums<W> {
    Sums {
        grad: s.grad.sum_of(bin.grad),
        hess: s.hess.sum_of(bin.hess),
        count: (s.count + bin.count) as i64,
    }
}

fn grow<W: Wide>(s: Sums<W>, bin: HistBin<W>) -> (r: Sums<W>)
    requires
        s.count + bin.count <= i64::MAX,
    ensures
        r == grown(s, bin),
{
    Sums {
        grad: s.grad.plus(bin.grad),
        hess: s.hess.plus(bin.hess),
        count: s.count + bin.count as i64,
    }
}

/// What is left of `parent` without `left`.
pub open spec fn rest<W: Wide>(parent: Sums<W>, left: Sums<W>) -> Sums<W> {
    Sums {
        grad: parent.grad.difference_of(left.grad),
        hess: parent.hess.difference_of(left.hess),
        count: (parent.count - left.count) as i64,
    }
}

/// The gain of splitting `left` off `parent`, or `None` when a side is too small
/// or the gain does not exceed the minimum.
pub open spec fn gain_of<W: Wide>(
    parent: Sums<W>,
    left: Sums<W>,
    rules: Rules<W>,
    l2: W,
) -> Option<W> {
    let right = rest(parent, left);
    let l1 = rules.lambda_l1;
    let gain = score_of(left.grad, left.hess, l1, l2).sum_of(
        score_of(right.grad, right.hess, l1, l2),
    ).difference_of(score_of(parent.grad, parent.hess, l1, l2)).product_of(W::ratio_of(1, 2));
    if left.count < rules.min_data_in_leaf || right.count < rules.min_data_in_leaf {
        None
    } else if lt(left.hess, rules.min_sum_hessian_in_leaf) || lt(
        right.hess,
        rules.min_sum_hessian_in_leaf,
    ) {
        None
    } else if le(gain, rules.min_gain_to_split) {
        None
    } else {
        Some(gain)
    }
}

fn evaluate<W: Wide>(parent: Sums<W>, left: Sums<W>, config: &Config<W>, l2: W) -> (r: Option<W>)
    requires
        0 <= parent.count <= u32::MAX,
        0 <= left.count <= 0x1_0000_0000_0000,
        config.min_data_in_leaf <= i64::MAX,
    ensures
        r == gain_of(parent, left, config.rules(), l2),
{
    let right: Sums<W> = Sums {
        grad: parent.grad.minus(left.grad),
        hess: parent.hess.minus(left.hess),
        count: parent.count - left.count,
    };
    let least: i64 = config.min_data_in_leaf as i64;
    if left.count < least || right.count < least {
        return None;
    }
    if less(left.hess, config.min_sum_hessian_in_leaf) || less(
        right.hess,
        config.min_sum_hessian_in_leaf,
    ) {
        return None;
    }
    let l1: W = config.lambda_l1;
    let score: W = node_score(left.grad, left.hess, l1, l2).plus(
        node_score(right.grad, right.hess, l1, l2),
    );
    let gain: W = score.minus(node_score(parent.grad, parent.hess, l1, l2)).times(W::ratio(1, 2));
    if at_most(gain, config.min_gain_to_split) {
        None
    } else {
        Some(gain)
    }
}

/// One feature of one node: what a split search is given.
pub struct Query<W> {
    pub feature: usize,
    pub hist: Seq<HistBin<W>>,
    pub parent: Sums<W>,
    pub rules: Rules<W>,
}

impl<W: Wide> Query<W> {
    // Numeric splits: a threshold on the bin code.

    /// The group left of threshold bin `t`: bins `1..=t`, with the missing bin
    /// first when missing values go left.
    pub open spec fn left_of(self, dir: MissingDir, t: nat) -> Sums<W>
        decreases t,
    {
        if t == 0 {
            match dir {
                MissingDir::Left => Sums {
                    grad: self.hist[0].grad,
                    hess: self.hist[0].hess,
                    count: self.hist[0].count as i64,
                },
                MissingDir::Right => Sums { grad: whole(0), hess: whole(0), count: 0 },
            }
        } else {
            grown(self.left_of(dir, (t - 1) as nat), self.hist[t as int])
        }
    }

    /// The split at threshold bin `t` of a feature with the given upper bounds,
    /// if it is allowed.
    pub open spec fn numeric_candidate(self, bounds: Seq<W>, dir: MissingDir, t: nat) -> Option<
        Split<W>,
    > {
        let left = self.left_of(dir, t);
        let right = rest(self.parent, left);
        match gain_of(self.parent, left, self.rules, self.rules.lambda_l2) {
            None => None,
            Some(gain) => Some(
                Split {
                    feature: self.feature,
                    threshold_bin: t as u16,
                    threshold_value: if t - 1 < bounds.len() {
                        bounds[t - 1]
                    } else {
                        W::infinite()
                    },
                    missing_dir: dir,
                    cat_left_bins: None,
                    gain,
                    left_sum_grad: left.grad,
                    left_sum_hess: left.hess,
                    left_count: left.count as u32,
                    right_sum_grad: right.grad,
                    right_sum_hess: right.hess,
                    right_count: right.count as u32,
                },
            ),
        }
    }

    /// The best of `start` and the splits at the thresholds `1..upto`, the
    /// earliest among equal gains.
    pub open spec fn scan(
        self,
        bounds: Seq<W>,
        dir: MissingDir,
        upto: nat,
        start: Option<Split<W>>,
    ) -> Option<Split<W>>
        decreases upto,
    {
        if upto <= 1 {
            start
        } else {
            first_best(
                self.scan(bounds, dir, (upto - 1) as nat, start),
                self.numeric_candidate(bounds, dir, (upto - 1) as nat),
            )
        }
    }

    /// The best numeric split: missing values are tried on the left, then on the
    /// right, at every threshold that leaves a real bin on each side.
    pub open spec fn best_numeric(self, bounds: Seq<W>) -> Option<Split<W>> {
        if self.hist.len() <= 2 {
            None
        } else {
            let n = (self.hist.len() - 1) as nat;
            self.scan(bounds, MissingDir::Right, n, self.scan(bounds, MissingDir::Left, n, None))
        }
    }
}

/// `candidate` if it is a split and `best` is not at least as good.
pub open spec fn first_best<W: Wide>(
    best: Option<Split<W>>,
    candidate: Option<Split<W>>,
) -> Option<Split<W>> {
    match (best, candidate) {
        (_, None) => best,
        (None, Some(_)) => candidate,
        (Some(b), Some(c)) => if le(c.gain, b.gain) {
            best
        } else {
            candidate
        },
    }
}

/// Bounds under which bin codes fit their type and row counts can be added up.
pub open spec fn searchable<W: Wide>(hist: Seq<HistBin<W>>, rules: Rules<W>) -> bool {
    hist.len() <= 0x10000 && rules.min_data_in_leaf <= i64::MAX
}

impl<W: Wide> Query<W> {
    pub proof fn lemma_left_of_bound(self, dir: MissingDir, t: nat)
        requires
            t < self.hist.len() <= 0x10000,
        ensures
            0 <= self.left_of(dir, t).count <= (t + 1) * 0x1_0000_0000,
        decreases t,
    {
        if t > 0 {
            self.lemma_left_of_bound(dir, (t - 1) as nat);
        }
    }
}

/// Find best split for a single feature using its histogram.
///
/// Returns `None` if no split satisfies the constraints. The missing bin is bin
/// 0; it is tried on both sides.
pub fn find_best_split_for_feature<W: Wide>(
    feature: usize,
    hist: &FeatureHistogram<W>,
    bin_mapper: &BinMapper<W>,
    parent_grad: W,
    parent_hess: W,
    parent_count: u32,
    config: &Config<W>,
) -> (r: Option<SplitInfo<W>>)
    requires
        searchable(hist.bins@, config.rules()),
    ensures
        found(r) == (Query {
            feature,
            hist: hist.bins@,
            parent: Sums { grad: parent_grad, hess: parent_hess, count: parent_count as i64 },
            rules: config.rules(),
        }).best_numeric(bin_mapper@.upper_bounds),
{
    let num_bins: usize = hist.num_bins();
    if num_bins <= 2 {
        return None;
    }
    let parent: Sums<W> = Sums { grad: parent_grad, hess: parent_hess, count: parent_count as i64 };
    let ghost query = Query {
        feature,
        hist: hist.bins@,
        parent,
        rules: config.rules(),
    };
    let from_left = scan_thresholds(
        feature,
        hist,
        bin_mapper,
        parent,
        config,
        MissingDir::Left,
        None,
        Ghost(query),
    );
    scan_thresholds(
        feature,
        hist,
        bin_mapper,
        parent,
        config,
        MissingDir::Right,
        from_left,
        Ghost(query),
    )
}

fn scan_thresholds<W: Wide>(
    feature: usize,
    hist: &FeatureHistogram<W>,
    bin_mapper: &BinMapper<W>,
    parent: Sums<W>,
    config: &Config<W>,
    dir: MissingDir,
    start: Option<SplitInfo<W>>,
    Ghost(query): Ghost<Query<W>>,
) -> (best: Option<SplitInfo<W>>)
    requires
        2 < hist.bins@.len(),
        searchable(hist.bins@, config.rules()),
        0 <= parent.count <= u32::MAX,
        query == (Query {
            feature,
            hist: hist.bins@,
            parent,
            rules: config.rules(),
        }),
    ensures
        found(best) == query.scan(bin_mapper@.upper_bounds, dir, (hist.bins@.len() - 1) as nat, found(start)),
{
    let mut best: Option<SplitInfo<W>> = start;
    let last: usize = hist.num_bins() - 1;
    let missing: HistBin<W> = hist.bins[0];
    let mut left: Sums<W> = match dir {
        MissingDir::Left => Sums {
            grad: missing.grad,
            hess: missing.hess,
            count: missing.count as i64,
        },
        MissingDir::Right => Sums { grad: constant(0), hess: constant(0), count: 0 },
    };
    let bounds: &[W] = bin_mapper.upper_bounds();
    let mut t: usize = 1;
    while t < last
        invariant
            1 <= t <= last,
            last == hist.bins@.len() - 1,
            searchable(hist.bins@, config.rules()),
            0 <= parent.count <= u32::MAX,
            query == (Query {
                feature,
                hist: hist.bins@,
                parent,
                rules: config.rules(),
            }),
            bounds@ == bin_mapper@.upper_bounds,
            left == query.left_of(dir, (t - 1) as nat),
            found(best) == query.scan(bin_mapper@.upper_bounds, dir, t as nat, found(start)),
        decreases last - t,
    {
        proof {
            query.lemma_left_of_bound(dir, (t - 1) as nat);
            query.lemma_left_of_bound(dir, t as nat);
        }
        left = grow(left, hist.bins[t]);
        assert(left == query.left_of(dir, t as nat));
        match evaluate(parent, left, config, config.lambda_l2) {
            None => {},
            Some(gain) => {
                let keep: bool = match &best {
                    Some(b) => at_most(gain, b.gain),
                    None => false,
                };
                if !keep {
                    let threshold_value: W = if t - 1 < bounds.len() {
                        bounds[t - 1]
                    } else {
                        W::infinity()
                    };
                    best = Some(
                        SplitInfo {
                            feature,
                            threshold_bin: t as u16,
                            threshold_value,
                            missing_dir: dir,
                            cat_left_bins: None,
                            gain,
                            left_sum_grad: left.grad,
                            left_sum_hess: left.hess,
                            left_count: left.count as u32,
                            right_sum_grad: parent.grad.minus(left.grad),
                            right_sum_hess: parent.hess.minus(left.hess),
                            right_count: (parent.count - left.count) as u32,
                        },
                    );
                }
            },
        }
        t = t + 1;
    }
    best
}

/// The fewest rows with which a category takes part in a split.
pub open spec fn group_minimum<W: Wide>(rules: Rules<W>) -> nat {
    if rules.min_data_per_group >= 1 {
        rules.min_data_per_group as nat
    } else {
        1
    }
}

impl<W: Wide> Query<W> {
    // Categorical splits: a set of bin codes.

    /// The L2 regularization of categorical gains.
    pub open spec fn cat_lambda(self) -> W {
        self.rules.lambda_l2.sum_of(self.rules.cat_l2)
    }

    /// The categories with enough rows to take part, in bin order.
    pub open spec fn used(self) -> Seq<usize> {
        positions(0, self.hist.len() as int).filter(
            |b: usize| self.hist[b as int].count >= group_minimum(self.rules),
        )
    }

    /// The smoothed gradient ratio of a category.
    pub open spec fn ratio(self, b: usize) -> W {
        let bin = self.hist[b as int];
        bin.grad.quotient_of(bin.hess.sum_of(self.rules.cat_smooth))
    }

    /// `bins` in ascending order of their gradient ratio.
    pub open spec fn ranked(self, bins: Seq<usize>) -> Seq<usize> {
        let keys = Seq::new(bins.len(), |i: int| ascending_key(self.ratio(bins[i]).rank_of()));
        let order = order_of(keys);
        Seq::new(bins.len(), |i: int| bins[order[i] as int])
    }

    /// The split that sends `bins` left, if it is allowed.
    pub open spec fn subset_candidate(self, bins: Seq<usize>, left: Sums<W>) -> Option<Split<W>> {
        let right = rest(self.parent, left);
        match gain_of(self.parent, left, self.rules, self.cat_lambda()) {
            None => None,
            Some(gain) => Some(
                Split {
                    feature: self.feature,
                    threshold_bin: 0,
                    threshold_value: whole(0),
                    missing_dir: MissingDir::Left,
                    cat_left_bins: Some(bins.map_values(|b: usize| b as u16)),
                    gain,
                    left_sum_grad: left.grad,
                    left_sum_hess: left.hess,
                    left_count: left.count as u32,
                    right_sum_grad: right.grad,
                    right_sum_hess: right.hess,
                    right_count: right.count as u32,
                },
            ),
        }
    }

    /// One category on its own.
    pub open spec fn alone(self, b: usize) -> Sums<W> {
        let bin = self.hist[b as int];
        Sums { grad: bin.grad, hess: bin.hess, count: bin.count as i64 }
    }

    /// The best split of one category against the rest among the first `n` of
    /// `bins`, the earliest among equal gains.
    pub open spec fn best_alone(self, bins: Seq<usize>, n: nat) -> Option<Split<W>>
        decreases n,
    {
        if n == 0 {
            None
        } else {
            let b = bins[n - 1];
            better(
                self.best_alone(bins, (n - 1) as nat),
                self.subset_candidate(seq![b], self.alone(b)),
            )
        }
    }

    /// The sums over a list of categories, added in order.
    pub open spec fn together(self, bins: Seq<usize>) -> Sums<W>
        decreases bins.len(),
    {
        if bins.len() == 0 {
            Sums { grad: whole(0), hess: whole(0), count: 0 }
        } else {
            grown(self.together(bins.drop_last()), self.hist[bins.last() as int])
        }
    }

    /// The best of `start` and the splits that send the first `1..=n` of `bins`
    /// left, the earliest among equal gains.
    pub open spec fn best_prefix(
        self,
        bins: Seq<usize>,
        n: nat,
        start: Option<Split<W>>,
    ) -> Option<Split<W>>
        decreases n,
    {
        if n == 0 {
            start
        } else {
            let group = bins.take(n as int);
            better(
                self.best_prefix(bins, (n - 1) as nat, start),
                self.subset_candidate(group, self.together(group)),
            )
        }
    }

    /// How many categories a subset scan takes from one end.
    pub open spec fn scan_limit(self, m: nat) -> nat {
        if self.rules.max_cat_threshold <= m - 1 {
            self.rules.max_cat_threshold as nat
        } else {
            (m - 1) as nat
        }
    }

    /// The best categorical split. With few categories each is tried against the
    /// rest; with more, the categories are ranked by gradient ratio and groups
    /// are grown from the low end, then from the high end.
    pub open spec fn best_subset(self) -> Option<Split<W>> {
        let used = self.used();
        if used.len() < 2 {
            None
        } else if used.len() <= self.rules.max_cat_to_onehot {
            self.best_alone(used, used.len())
        } else {
            let ranked = self.ranked(used);
            let n = self.scan_limit(used.len());
            self.best_prefix(ranked.reverse(), n, self.best_prefix(ranked, n, None))
        }
    }
}

/// `candidate` if it is a split and beats `best`.
pub open spec fn better<W: Wide>(
    best: Option<Split<W>>,
    candidate: Option<Split<W>>,
) -> Option<Split<W>> {
    match (best, candidate) {
        (_, None) => best,
        (None, Some(_)) => candidate,
        (Some(b), Some(c)) => if lt(b.gain, c.gain) {
            candidate
        } else {
            best
        },
    }
}

impl<W: Wide> Query<W> {
    pub proof fn lemma_together_bound(self, bins: Seq<usize>)
        requires
            bins.len() <= 0x10000,
        ensures
            0 <= self.together(bins).count <= bins.len() * 0x1_0000_0000,
        decreases bins.len(),
    {
        if bins.len() > 0 {
            self.lemma_together_bound(bins.drop_last());
        }
    }
}

fn copied(bins: &Vec<u16>) -> (r: Vec<u16>)
    ensures
        r@ == bins@,
{
    let r = bins.clone();
    assert(r@ =~= bins@);
    r
}

/// Replaces `best` by the split that sends `left_bins` left, if that is allowed
/// and better.
fn consider<W: Wide>(
    best: &mut Option<SplitInfo<W>>,
    feature: usize,
    parent: Sums<W>,
    config: &Config<W>,
    l2: W,
    left_bins: &Vec<u16>,
    left: Sums<W>,
    Ghost(query): Ghost<Query<W>>,
    Ghost(bins): Ghost<Seq<usize>>,
)
    requires
        query.feature == feature,
        query.parent == parent,
        query.rules == config.rules(),
        l2 == query.cat_lambda(),
        left_bins@ == bins.map_values(|b: usize| b as u16),
        0 <= parent.count <= u32::MAX,
        0 <= left.count <= 0x1_0000_0000_0000,
        config.min_data_in_leaf <= i64::MAX,
    ensures
        found(*final(best)) == better(found(*old(best)), query.subset_candidate(bins, left)),
{
    match evaluate(parent, left, config, l2) {
        None => {},
        Some(gain) => {
            let replace: bool = match &*best {
                Some(b) => less(b.gain, gain),
                None => true,
            };
            if replace {
                *best = Some(
                    SplitInfo {
                        feature,
                        threshold_bin: 0,
                        threshold_value: constant(0),
                        missing_dir: MissingDir::Left,
                        cat_left_bins: Some(copied(left_bins)),
                        gain,
                        left_sum_grad: left.grad,
                        left_sum_hess: left.hess,
                        left_count: left.count as u32,
                        right_sum_grad: parent.grad.minus(left.grad),
                        right_sum_hess: parent.hess.minus(left.hess),
                        right_count: (parent.count - left.count) as u32,
                    },
                );
            }
        },
    }
}

fn used_bins<W: Wide>(
    hist: &FeatureHistogram<W>,
    config: &Config<W>,
    Ghost(query): Ghost<Query<W>>,
) -> (used: Vec<usize>)
    requires
        query.hist == hist.bins@,
        query.rules == config.rules(),
    ensures
        used@ == query.used(),
        used@.len() <= hist.bins@.len(),
        forall|i: int| 0 <= i < used@.len() ==> (#[trigger] used@[i]) < hist.bins@.len(),
{
    let least: usize = if config.min_data_per_group >= 1 {
        config.min_data_per_group
    } else {
        1
    };
    let mut used: Vec<usize> = Vec::new();
    let ghost enough = |b: usize| query.hist[b as int].count >= group_minimum(query.rules);
    let n: usize = hist.num_bins();
    let mut b: usize = 0;
    proof {
        reveal(Seq::filter);
        assert(positions(0, 0) =~= Seq::<usize>::empty());
    }
    while b < n
        invariant
            b <= n == hist.bins@.len(),
            query.hist == hist.bins@,
            query.rules == config.rules(),
            least == group_minimum(query.rules),
            enough == (|b: usize| query.hist[b as int].count >= group_minimum(query.rules)),
            used@ == positions(0, b as int).filter(enough),
            used@.len() <= b,
            forall|i: int| 0 <= i < used@.len() ==> (#[trigger] used@[i]) < b,
        decreases n - b,
    {
        proof {
            reveal(Seq::filter);
            assert(positions(0, b + 1).drop_last() =~= positions(0, b as int));
        }
        if hist.bins[b].count as usize >= least {
            used.push(b);
        }
        b = b + 1;
    }
    used
}

fn ranked_bins<W: Wide>(
    hist: &FeatureHistogram<W>,
    config: &Config<W>,
    used: &Vec<usize>,
    Ghost(query): Ghost<Query<W>>,
) -> (ranked: Vec<usize>)
    requires
        query.hist == hist.bins@,
        query.rules == config.rules(),
        forall|i: int| 0 <= i < used@.len() ==> (#[trigger] used@[i]) < hist.bins@.len(),
    ensures
        ranked@ == query.ranked(used@),
        forall|i: int| 0 <= i < ranked@.len() ==> (#[trigger] ranked@[i]) < hist.bins@.len(),
{
    let mut keys: Vec<u64> = Vec::with_capacity(used.len());
    let ghost wanted = Seq::new(
        used@.len(),
        |i: int| ascending_key(query.ratio(used@[i]).rank_of()),
    );
    let mut i: usize = 0;
    while i < used.len()
        invariant
            i <= used@.len(),
            keys@.len() == i,
            query.hist == hist.bins@,
            query.rules == config.rules(),
            forall|i: int| 0 <= i < used@.len() ==> (#[trigger] used@[i]) < hist.bins@.len(),
            wanted == Seq::new(
                used@.len(),
                |i: int| ascending_key(query.ratio(used@[i]).rank_of()),
            ),
            forall|j: int| 0 <= j < i ==> keys@[j] == wanted[j],
        decreases used@.len() - i,
    {
        let bin: HistBin<W> = hist.bins[used[i]];
        let ratio: W = bin.grad.over(bin.hess.plus(config.cat_smooth));
        keys.push(rank_ascending(ratio.rank()));
        i = i + 1;
    }
    proof {
        assert(keys@ =~= wanted);
        crate::order::lemma_order_of(keys@);
    }
    let order = order_by_key(keys.as_slice());
    let mut ranked: Vec<usize> = Vec::with_capacity(used.len());
    let mut k: usize = 0;
    while k < used.len()
        invariant
            k <= used@.len() == order@.len(),
            forall|i: int| 0 <= i < used@.len() ==> (#[trigger] used@[i]) < hist.bins@.len(),
            forall|i: int| 0 <= i < order@.len() ==> (#[trigger] order@[i]) < used@.len(),
            ranked@.len() == k,
            forall|j: int| 0 <= j < k ==> #[trigger] ranked@[j] == used@[order@[j] as int],
        decreases used@.len() - k,
    {
        ranked.push(used[order[k]]);
        k = k + 1;
    }
    proof {
        assert(ranked@ =~= query.ranked(used@));
    }
    ranked
}

/// Grows a group along `bins` up to `limit` categories, considering each size.
fn scan_group<W: Wide>(
    start: Option<SplitInfo<W>>,
    feature: usize,
    hist: &FeatureHistogram<W>,
    bins: &Vec<usize>,
    limit: usize,
    parent: Sums<W>,
    config: &Config<W>,
    l2: W,
    Ghost(query): Ghost<Query<W>>,
) -> (best: Option<SplitInfo<W>>)
    requires
        query.feature == feature,
        query.hist == hist.bins@,
        query.parent == parent,
        query.rules == config.rules(),
        l2 == query.cat_lambda(),
        searchable(hist.bins@, config.rules()),
        0 <= parent.count <= u32::MAX,
        limit <= bins@.len() <= 0x10000,
        forall|i: int| 0 <= i < bins@.len() ==> (#[trigger] bins@[i]) < hist.bins@.len(),
    ensures
        found(best) == query.best_prefix(bins@, limit as nat, found(start)),
{
    let mut best: Option<SplitInfo<W>> = start;
    let mut left: Sums<W> = Sums { grad: constant(0), hess: constant(0), count: 0 };
    let mut left_bins: Vec<u16> = Vec::new();
    let mut step: usize = 0;
    proof {
        assert(bins@.take(0) =~= Seq::<usize>::empty());
        assert(left_bins@ =~= bins@.take(0).map_values(|b: usize| b as u16));
    }
    while step < limit
        invariant
            query.feature == feature,
            query.hist == hist.bins@,
            query.parent == parent,
            query.rules == config.rules(),
            l2 == query.cat_lambda(),
            searchable(hist.bins@, config.rules()),
            0 <= parent.count <= u32::MAX,
            step <= limit <= bins@.len() <= 0x10000,
            forall|i: int| 0 <= i < bins@.len() ==> (#[trigger] bins@[i]) < hist.bins@.len(),
            left == query.together(bins@.take(step as int)),
            left_bins@ == bins@.take(step as int).map_values(|b: usize| b as u16),
            found(best) == query.best_prefix(bins@, step as nat, found(start)),
        decreases limit - step,
    {
        let b: usize = bins[step];
        let ghost group = bins@.take(step + 1);
        proof {
            assert(group.drop_last() =~= bins@.take(step as int));
            query.lemma_together_bound(bins@.take(step as int));
            query.lemma_together_bound(group);
        }
        left = grow(left, hist.bins[b]);
        left_bins.push(b as u16);
        assert(left_bins@ =~= group.map_values(|b: usize| b as u16));
        consider(
            &mut best,
            feature,
            parent,
            config,
            l2,
            &left_bins,
            left,
            Ghost(query),
            Ghost(group),
        );
        step = step + 1;
    }
    best
}

fn reversed(bins: &Vec<usize>) -> (r: Vec<usize>)
    ensures
        r@ == bins@.reverse(),
{
    let mut r: Vec<usize> = Vec::with_capacity(bins.len());
    let mut k: usize = bins.len();
    while k > 0
        invariant
            k <= bins@.len(),
            r@.len() == bins@.len() - k,
            forall|i: int| 0 <= i < r@.len() ==> r@[i] == bins@[bins@.len() - 1 - i],
        decreases k,
    {
        k = k - 1;
        r.push(bins[k]);
    }
    assert(r@ =~= bins@.reverse());
    r
}

/// Find the best categorical (subset) split for a feature.
///
/// Categories below `min_data_per_group` rows do not take part; they go to the
/// default (right) side. With at most `max_cat_to_onehot` remaining categories
/// the split is one-versus-rest; otherwise categories are sorted by their
/// smoothed gradient ratio and the best group is found by scanning up to
/// `max_cat_threshold` categories inward from each end of that order. Gains use
/// `lambda_l2 + cat_l2`. The chosen categories (`cat_left_bins`) go left,
/// everything else goes right; the missing bin is one more category.
pub fn find_best_categorical_split<W: Wide>(
    feature: usize,
    hist: &FeatureHistogram<W>,
    parent_grad: W,
    parent_hess: W,
    parent_count: u32,
    config: &Config<W>,
) -> (r: Option<SplitInfo<W>>)
    requires
        searchable(hist.bins@, config.rules()),
    ensures
        found(r) == (Query {
            feature,
            hist: hist.bins@,
            parent: Sums { grad: parent_grad, hess: parent_hess, count: parent_count as i64 },
            rules: config.rules(),
        }).best_subset(),
{
    let parent: Sums<W> = Sums { grad: parent_grad, hess: parent_hess, count: parent_count as i64 };
    let ghost query = Query { feature, hist: hist.bins@, parent, rules: config.rules() };
    let l2: W = config.lambda_l2.plus(config.cat_l2);
    let used: Vec<usize> = used_bins(hist, config, Ghost(query));
    let m: usize = used.len();
    if m < 2 {
        return None;
    }
    if m <= config.max_cat_to_onehot {
        let mut best: Option<SplitInfo<W>> = None;
        let mut i: usize = 0;
        while i < m
            invariant
                query == (Query { feature, hist: hist.bins@, parent, rules: config.rules() }),
                l2 == query.cat_lambda(),
                searchable(hist.bins@, config.rules()),
                0 <= parent.count <= u32::MAX,
                i <= m == used@.len(),
                forall|i: int| 0 <= i < used@.len() ==> (#[trigger] used@[i]) < hist.bins@.len(),
                found(best) == query.best_alone(used@, i as nat),
            decreases m - i,
        {
            let b: usize = used[i];
            let bin: HistBin<W> = hist.bins[b];
            let left: Sums<W> = Sums { grad: bin.grad, hess: bin.hess, count: bin.count as i64 };
            let left_bins: Vec<u16> = vec![b as u16];
            let ghost single = seq![b];
            assert(left_bins@ =~= single.map_values(|b: usize| b as u16));
            consider(
                &mut best,
                feature,
                parent,
                config,
                l2,
                &left_bins,
                left,
                Ghost(query),
                Ghost(single),
            );
            i = i + 1;
        }
        return best;
    }
    let ranked: Vec<usize> = ranked_bins(hist, config, &used, Ghost(query));
    let limit: usize = if config.max_cat_threshold <= m - 1 {
        config.max_cat_threshold
    } else {
        m - 1
    };
    let low = scan_group(
        None,
        feature,
        hist,
        &ranked,
        limit,
        parent,
        config,
        l2,
        Ghost(query),
    );
    let backward: Vec<usize> = reversed(&ranked);
    scan_group(low, feature, hist, &backward, limit, parent, config, l2, Ghost(query))
}

} // verus!
