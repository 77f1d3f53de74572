//! What a split is for: among all splits that the limits allow, the one that
//! lowers the regularized second-order loss the most.

use vstd::prelude::*;

use crate::number::{le, lt, whole, Wide};
use crate::tree::histogram::HistBin;
use crate::tree::laws::beats;
use crate::tree::split::{gain_of, Query, Split, Sums};
use crate::tree::MissingDir;

verus! {

// The regularized Newton gain, in terms of gradient and hessian sums.

/// A gradient sum under L1 regularization: nothing is left of it within `l1` of
/// zero, beyond that it is `l1` closer to zero.
pub open spec fn shrunk<W: Wide>(g: W, l1: W) -> W {
    let zero = whole::<W>(0);
    if !lt(zero, l1) {
        g
    } else if lt(l1, g) {
        g.difference_of(l1)
    } else if lt(g, l1.negation_of()) {
        g.sum_of(l1)
    } else {
        zero
    }
}

/// How much the best value of one leaf lowers the loss of its rows, twice: the
/// squared gradient sum over the hessian sum, both regularized.
pub open spec fn quality<W: Wide>(g: W, h: W, l1: W, l2: W) -> W {
    shrunk(g, l1).product_of(shrunk(g, l1)).quotient_of(h.sum_of(l2))
}

/// Half of what the two sides have more than the parent. The sides and the parent
/// are given by their gradient and hessian sums.
pub open spec fn newton_gain<W: Wide>(
    parent: (W, W),
    left: (W, W),
    right: (W, W),
    l1: W,
    l2: W,
) -> W {
    quality(left.0, left.1, l1, l2).sum_of(quality(right.0, right.1, l1, l2)).difference_of(
        quality(parent.0, parent.1, l1, l2),
    ).product_of(W::ratio_of(1, 2))
}

/// The gain of a split is the Newton gain of the sums that it carries, whose right
/// side is the parent without the left side.
pub open spec fn gains_by_newton<W: Wide>(q: Query<W>, split: Split<W>, l2: W) -> bool {
    &&& split.gain == newton_gain(
        (q.parent.grad, q.parent.hess),
        (split.left_sum_grad, split.left_sum_hess),
        (split.right_sum_grad, split.right_sum_hess),
        q.rules.lambda_l1,
        l2,
    )
    &&& split.right_sum_grad == q.parent.grad.difference_of(split.left_sum_grad)
    &&& split.right_sum_hess == q.parent.hess.difference_of(split.left_sum_hess)
}

/// Both sides have enough rows and hessian, and the gain is large enough.
pub open spec fn allowed<W: Wide>(
    q: Query<W>,
    left: (W, W),
    count: int,
    l2: W,
) -> bool {
    let right = (q.parent.grad.difference_of(left.0), q.parent.hess.difference_of(left.1));
    let gain = newton_gain((q.parent.grad, q.parent.hess), left, right, q.rules.lambda_l1, l2);
    &&& count >= q.rules.min_data_in_leaf
    &&& q.parent.count - count >= q.rules.min_data_in_leaf
    &&& !lt(left.1, q.rules.min_sum_hessian_in_leaf)
    &&& !lt(right.1, q.rules.min_sum_hessian_in_leaf)
    &&& !le(gain, q.rules.min_gain_to_split)
}

/// The gain of splitting a group with the given sums off the parent of `q`.
pub open spec fn gain_at<W: Wide>(q: Query<W>, left: (W, W), l2: W) -> W {
    newton_gain(
        (q.parent.grad, q.parent.hess),
        left,
        (q.parent.grad.difference_of(left.0), q.parent.hess.difference_of(left.1)),
        q.rules.lambda_l1,
        l2,
    )
}

/// Splitting a group off is allowed exactly within the limits, and gains the Newton
/// gain.
pub proof fn lemma_gain_of<W: Wide>(q: Query<W>, left: Sums<W>, l2: W)
    requires
        0 <= q.parent.count <= u32::MAX,
        0 <= left.count <= 0x1_0000_0000_0000,
    ensures
        gain_of(q.parent, left, q.rules, l2) is Some <==> allowed(
            q,
            (left.grad, left.hess),
            left.count as int,
            l2,
        ),
        gain_of(q.parent, left, q.rules, l2) matches Some(gain) ==> gain == gain_at(
            q,
            (left.grad, left.hess),
            l2,
        ),
{
}

/// The gain depends on gradient and hessian sums alone: two groups that have the
/// same sums gain the same, however many rows they have.
pub proof fn law_gain_ignores_counts<W: Wide>(
    q: Query<W>,
    a: Query<W>,
    left: Sums<W>,
    other: Sums<W>,
    l2: W,
)
    requires
        left.grad == other.grad,
        left.hess == other.hess,
        q.parent.grad == a.parent.grad,
        q.parent.hess == a.parent.hess,
        q.rules.lambda_l1 == a.rules.lambda_l1,
        gain_of(q.parent, left, q.rules, l2) is Some,
        gain_of(a.parent, other, a.rules, l2) is Some,
    ensures
        gain_of(q.parent, left, q.rules, l2) == gain_of(a.parent, other, a.rules, l2),
{
}

// Numeric features.

/// The gradients (or hessians) left of a threshold, added up in bin order: those of
/// the missing values first, if they go left, then those of the bins `1..=t`.
pub open spec fn left_grad<W: Wide>(hist: Seq<HistBin<W>>, missing_left: bool, t: nat) -> W
    decreases t,
{
    if t == 0 {
        if missing_left {
            hist[0].grad
        } else {
            whole(0)
        }
    } else {
        left_grad(hist, missing_left, (t - 1) as nat).sum_of(hist[t as int].grad)
    }
}

pub open spec fn left_hess<W: Wide>(hist: Seq<HistBin<W>>, missing_left: bool, t: nat) -> W
    decreases t,
{
    if t == 0 {
        if missing_left {
            hist[0].hess
        } else {
            whole(0)
        }
    } else {
        left_hess(hist, missing_left, (t - 1) as nat).sum_of(hist[t as int].hess)
    }
}

/// The rows left of a threshold.
pub open spec fn left_count<W: Wide>(hist: Seq<HistBin<W>>, missing_left: bool, t: nat) -> int
    decreases t,
{
    if t == 0 {
        if missing_left {
            hist[0].count as int
        } else {
            0
        }
    } else {
        left_count(hist, missing_left, (t - 1) as nat) + hist[t as int].count
    }
}

proof fn lemma_left_of<W: Wide>(q: Query<W>, dir: MissingDir, t: nat)
    requires
        t < q.hist.len() <= 0x10000,
    ensures
        q.left_of(dir, t).grad == left_grad(q.hist, dir == MissingDir::Left, t),
        q.left_of(dir, t).hess == left_hess(q.hist, dir == MissingDir::Left, t),
        q.left_of(dir, t).count == left_count(q.hist, dir == MissingDir::Left, t),
    decreases t,
{
    q.lemma_left_of_bound(dir, t);
    if t > 0 {
        q.lemma_left_of_bound(dir, (t - 1) as nat);
        lemma_left_of(q, dir, (t - 1) as nat);
    }
}

/// The sums of the bin codes that a split sends left, added up in bin order. The
/// missing bin comes first.
pub open spec fn routed_grad<W: Wide>(hist: Seq<HistBin<W>>, split: Split<W>, n: nat) -> W
    decreases n,
{
    if n == 0 {
        whole(0)
    } else if n == 1 {
        if split.left(0) {
            hist[0].grad
        } else {
            whole(0)
        }
    } else {
        let before = routed_grad(hist, split, (n - 1) as nat);
        if split.left((n - 1) as u16) {
            before.sum_of(hist[n - 1].grad)
        } else {
            before
        }
    }
}

pub open spec fn routed_hess<W: Wide>(hist: Seq<HistBin<W>>, split: Split<W>, n: nat) -> W
    decreases n,
{
    if n == 0 {
        whole(0)
    } else if n == 1 {
        if split.left(0) {
            hist[0].hess
        } else {
            whole(0)
        }
    } else {
        let before = routed_hess(hist, split, (n - 1) as nat);
        if split.left((n - 1) as u16) {
            before.sum_of(hist[n - 1].hess)
        } else {
            before
        }
    }
}

proof fn lemma_routed<W: Wide>(hist: Seq<HistBin<W>>, split: Split<W>, n: nat)
    requires
        split.cat_left_bins is None,
        1 <= n <= hist.len() <= 0x10000,
        split.threshold_bin < hist.len(),
    ensures
        ({
            let upto = if n <= split.threshold_bin {
                (n - 1) as nat
            } else {
                split.threshold_bin as nat
            };
            let missing_left = split.missing_dir == MissingDir::Left;
            &&& routed_grad(hist, split, n) == left_grad(hist, missing_left, upto)
            &&& routed_hess(hist, split, n) == left_hess(hist, missing_left, upto)
        }),
    decreases n,
{
    if n > 1 {
        lemma_routed(hist, split, (n - 1) as nat);
    }
}

/// What holds of a numeric split at a threshold that leaves a real bin on each side.
pub open spec fn is_threshold_split<W: Wide>(q: Query<W>, bounds: Seq<W>, s: Split<W>) -> bool {
    &&& s.feature == q.feature
    &&& s.cat_left_bins is None
    &&& 1 <= s.threshold_bin < q.hist.len() - 1
    &&& s.threshold_value == if s.threshold_bin <= bounds.len() {
        bounds[s.threshold_bin - 1]
    } else {
        W::infinite()
    }
    &&& gains_by_newton(q, s, q.rules.lambda_l2)
    &&& s.left_sum_grad == routed_grad(q.hist, s, q.hist.len())
    &&& s.left_sum_hess == routed_hess(q.hist, s, q.hist.len())
}

proof fn lemma_threshold_candidate<W: Wide>(
    q: Query<W>,
    bounds: Seq<W>,
    dir: MissingDir,
    t: nat,
)
    requires
        q.hist.len() <= 0x10000,
        0 <= q.parent.count <= u32::MAX,
        1 <= t < q.hist.len() - 1,
    ensures
        ({
            let missing_left = dir == MissingDir::Left;
            let left = (left_grad(q.hist, missing_left, t), left_hess(q.hist, missing_left, t));
            let candidate = q.numeric_candidate(bounds, dir, t);
            &&& candidate is Some <==> allowed(
                q,
                left,
                left_count(q.hist, missing_left, t),
                q.rules.lambda_l2,
            )
            &&& candidate matches Some(s) ==> is_threshold_split(q, bounds, s) && s.gain
                == gain_at(q, left, q.rules.lambda_l2) && s.missing_dir == dir && s.threshold_bin
                == t
        }),
{
    lemma_left_of(q, dir, t);
    q.lemma_left_of_bound(dir, t);
    lemma_gain_of(q, q.left_of(dir, t), q.rules.lambda_l2);
    match q.numeric_candidate(bounds, dir, t) {
        Some(s) => {
            assert(s.threshold_bin == t);
            lemma_routed(q.hist, s, q.hist.len());
        },
        None => {},
    }
}

proof fn lemma_scan_splits<W: Wide>(
    q: Query<W>,
    bounds: Seq<W>,
    dir: MissingDir,
    upto: nat,
    start: Option<Split<W>>,
)
    requires
        q.hist.len() <= 0x10000,
        0 <= q.parent.count <= u32::MAX,
        upto < q.hist.len(),
        start matches Some(s) ==> is_threshold_split(q, bounds, s),
    ensures
        q.scan(bounds, dir, upto, start) matches Some(s) ==> is_threshold_split(q, bounds, s),
    decreases upto,
{
    if upto > 1 {
        lemma_scan_splits(q, bounds, dir, (upto - 1) as nat, start);
        lemma_threshold_candidate(q, bounds, dir, (upto - 1) as nat);
    }
}

/// The numeric split that is found carries, for its left side, the gradient and
/// hessian sums of exactly the bins that it sends left, the missing bin included
/// when missing values go left; for its right side what is left of the parent. Its
/// gain is the Newton gain of those sums.
pub proof fn law_numeric_split_sums<W: Wide>(q: Query<W>, bounds: Seq<W>)
    requires
        q.hist.len() <= 0x10000,
        0 <= q.parent.count <= u32::MAX,
    ensures
        q.best_numeric(bounds) matches Some(s) ==> is_threshold_split(q, bounds, s),
{
    if q.hist.len() > 2 {
        let n = (q.hist.len() - 1) as nat;
        lemma_scan_splits(q, bounds, MissingDir::Left, n, None);
        let from_left = q.scan(bounds, MissingDir::Left, n, None);
        lemma_scan_splits(q, bounds, MissingDir::Right, n, from_left);
    }
}

/// The gain of every threshold compares, with missing values on either side.
pub open spec fn thresholds_compare<W: Wide>(q: Query<W>) -> bool {
    forall|missing_left: bool, t: nat|
        #![trigger left_grad(q.hist, missing_left, t)]
        1 <= t < q.hist.len() - 1 ==> gain_at(
            q,
            (left_grad(q.hist, missing_left, t), left_hess(q.hist, missing_left, t)),
            q.rules.lambda_l2,
        ).rank_of() is Some
}

proof fn lemma_scan_beats<W: Wide>(
    q: Query<W>,
    bounds: Seq<W>,
    dir: MissingDir,
    upto: nat,
    start: Option<Split<W>>,
)
    requires
        q.hist.len() <= 0x10000,
        0 <= q.parent.count <= u32::MAX,
        upto < q.hist.len(),
        start matches Some(s) ==> s.gain.rank_of() is Some,
        thresholds_compare(q),
    ensures
        q.scan(bounds, dir, upto, start) matches Some(s) ==> s.gain.rank_of() is Some,
        start matches Some(s) ==> beats(q.scan(bounds, dir, upto, start), s),
        forall|t: nat|
            1 <= t < upto && (#[trigger] q.numeric_candidate(bounds, dir, t)) is Some ==> beats(
                q.scan(bounds, dir, upto, start),
                q.numeric_candidate(bounds, dir, t)->0,
            ),
    decreases upto,
{
    if upto > 1 {
        let t = (upto - 1) as nat;
        lemma_scan_beats(q, bounds, dir, t, start);
        lemma_threshold_candidate(q, bounds, dir, t);
        assert(left_grad(q.hist, dir == MissingDir::Left, t) == left_grad(
            q.hist,
            dir == MissingDir::Left,
            t,
        ));
    }
}

/// No threshold that leaves a real bin on each side, with missing values on either
/// side, gains more than the split that is found, if the limits allow it. If the
/// limits allow any, one is found.
pub proof fn law_best_threshold_of_all<W: Wide>(
    q: Query<W>,
    bounds: Seq<W>,
    missing_left: bool,
    t: nat,
)
    requires
        q.hist.len() <= 0x10000,
        0 <= q.parent.count <= u32::MAX,
        1 <= t < q.hist.len() - 1,
        thresholds_compare(q),
        allowed(
            q,
            (left_grad(q.hist, missing_left, t), left_hess(q.hist, missing_left, t)),
            left_count(q.hist, missing_left, t),
            q.rules.lambda_l2,
        ),
    ensures
        q.best_numeric(bounds) matches Some(s) && le(
            gain_at(
                q,
                (left_grad(q.hist, missing_left, t), left_hess(q.hist, missing_left, t)),
                q.rules.lambda_l2,
            ),
            s.gain,
        ),
{
    let n = (q.hist.len() - 1) as nat;
    let dir = if missing_left {
        MissingDir::Left
    } else {
        MissingDir::Right
    };
    lemma_threshold_candidate(q, bounds, dir, t);
    lemma_scan_beats(q, bounds, MissingDir::Left, n, None);
    let from_left = q.scan(bounds, MissingDir::Left, n, None);
    lemma_scan_beats(q, bounds, MissingDir::Right, n, from_left);
    let candidate = q.numeric_candidate(bounds, dir, t);
    assert(candidate is Some);
    if missing_left {
        assert(beats(from_left, candidate->0));
    }
}

proof fn lemma_scan_first<W: Wide>(
    q: Query<W>,
    bounds: Seq<W>,
    dir: MissingDir,
    upto: nat,
    start: Option<Split<W>>,
)
    requires
        q.hist.len() <= 0x10000,
        0 <= q.parent.count <= u32::MAX,
        upto < q.hist.len(),
        start matches Some(s) ==> s.gain.rank_of() is Some,
        thresholds_compare(q),
    ensures
        q.scan(bounds, dir, upto, start) matches Some(s) ==> s.gain.rank_of() is Some && (start
            == Some(s) || {
            &&& start matches Some(b) ==> lt(b.gain, s.gain)
            &&& s.missing_dir == dir
            &&& 1 <= s.threshold_bin < upto
            &&& forall|t: nat|
                1 <= t < s.threshold_bin && (#[trigger] q.numeric_candidate(bounds, dir, t))
                    is Some ==> lt(q.numeric_candidate(bounds, dir, t)->0.gain, s.gain)
        }),
        q.scan(bounds, dir, upto, start) is None ==> start is None,
    decreases upto,
{
    if upto > 1 {
        let t = (upto - 1) as nat;
        lemma_scan_first(q, bounds, dir, t, start);
        lemma_scan_beats(q, bounds, dir, t, start);
        lemma_threshold_candidate(q, bounds, dir, t);
        let before = q.scan(bounds, dir, t, start);
        let candidate = q.numeric_candidate(bounds, dir, t);
        assert(left_grad(q.hist, dir == MissingDir::Left, t) == left_grad(
            q.hist,
            dir == MissingDir::Left,
            t,
        ));
        if candidate is Some && q.scan(bounds, dir, upto, start) == candidate && (before is None
            || before != candidate) {
            let s = candidate->0;
            assert forall|u: nat|
                1 <= u < t && (#[trigger] q.numeric_candidate(bounds, dir, u)) is Some implies lt(
                q.numeric_candidate(bounds, dir, u)->0.gain,
                s.gain,
            ) by {
                assert(beats(before, q.numeric_candidate(bounds, dir, u)->0));
            }
        }
    }
}

/// Among thresholds of the same gain the first one is found, in this order: missing
/// values left at ascending thresholds, then missing values right at ascending
/// thresholds.
pub proof fn law_first_threshold_of_equals<W: Wide>(
    q: Query<W>,
    bounds: Seq<W>,
    missing_left: bool,
    t: nat,
)
    requires
        q.hist.len() <= 0x10000,
        0 <= q.parent.count <= u32::MAX,
        1 <= t < q.hist.len() - 1,
        thresholds_compare(q),
        allowed(
            q,
            (left_grad(q.hist, missing_left, t), left_hess(q.hist, missing_left, t)),
            left_count(q.hist, missing_left, t),
            q.rules.lambda_l2,
        ),
    ensures
        ({
            let gain = gain_at(
                q,
                (left_grad(q.hist, missing_left, t), left_hess(q.hist, missing_left, t)),
                q.rules.lambda_l2,
            );
            &&& q.best_numeric(bounds) matches Some(s)
            &&& missing_left && s.missing_dir == MissingDir::Right ==> lt(gain, s.gain)
            &&& missing_left == (s.missing_dir == MissingDir::Left) && t < s.threshold_bin ==> lt(
                gain,
                s.gain,
            )
        }),
{
    let n = (q.hist.len() - 1) as nat;
    let dir = if missing_left {
        MissingDir::Left
    } else {
        MissingDir::Right
    };
    law_best_threshold_of_all(q, bounds, missing_left, t);
    lemma_threshold_candidate(q, bounds, dir, t);
    lemma_scan_first(q, bounds, MissingDir::Left, n, None);
    lemma_scan_beats(q, bounds, MissingDir::Left, n, None);
    let from_left = q.scan(bounds, MissingDir::Left, n, None);
    lemma_scan_first(q, bounds, MissingDir::Right, n, from_left);
    assert(q.numeric_candidate(bounds, dir, t) is Some);
    if missing_left {
        assert(beats(from_left, q.numeric_candidate(bounds, dir, t)->0));
    }
}

} // verus!
