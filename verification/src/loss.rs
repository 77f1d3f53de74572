//! Binary logistic loss: sigmoid, init score, packed gradients/hessians, and the
//! binary logloss evaluation metric.

use vstd::prelude::*;

use crate::number::{at_most, clamp, clamped, constant, le, less, lt, total, whole, Real, Wide};

verus! {

/// The logistic function, in the form that does not overflow on either side.
pub open spec fn sigmoid_of<R: Real>(x: R) -> R {
    if le(whole(0), x) {
        whole::<R>(1).quotient_of(whole::<R>(1).sum_of(x.negation_of().exp_of()))
    } else {
        x.exp_of().quotient_of(whole::<R>(1).sum_of(x.exp_of()))
    }
}

pub fn sigmoid<R: Real>(x: R) -> (r: R)
    ensures
        r == sigmoid_of(x),
{
    if at_most(constant(0), x) {
        constant::<R>(1).over(constant::<R>(1).plus(x.negate().exp()))
    } else {
        let e: R = x.exp();
        e.over(constant::<R>(1).plus(e))
    }
}

/// The logistic function of a comparable number lies between zero and one.
pub proof fn law_sigmoid_within_one<W: Wide>(x: W)
    requires
        x.rank_of() is Some,
    ensures
        le(whole(0), sigmoid_of(x)),
        le(sigmoid_of(x), whole(1)),
{
    let one = whole::<W>(1);
    W::constant_positive(1, 1);
    let e = if le(whole(0), x) {
        x.negation_flips();
        x.negation_of().exp_within_one();
        x.negation_of().exp_of()
    } else {
        x.exp_within_one();
        x.exp_of()
    };
    W::sum_grows(one, e);
    W::share_within_one(one, one.sum_of(e));
    W::share_within_one(e, one.sum_of(e));
}

/// The degree-5 polynomial that stands in for `2^y` on `[0, 1)`.
pub open spec fn exp2_polynomial<R: Real>(y: R) -> R {
    let c5 = R::ratio_of(13427, 10_000_000);
    let c4 = R::ratio_of(96181, 10_000_000).sum_of(y.product_of(c5));
    let c3 = R::ratio_of(555041, 10_000_000).sum_of(y.product_of(c4));
    let c2 = R::ratio_of(2402265, 10_000_000).sum_of(y.product_of(c3));
    let c1 = R::ratio_of(11629080, 16777216).sum_of(y.product_of(c2));
    whole::<R>(1).sum_of(y.product_of(c1))
}

/// The exponent of two that is used for the whole part of an exponent.
pub open spec fn exponent_of<R: Real>(whole_part: R) -> i32 {
    let i = whole_part.to_i32_of();
    if i < -126 {
        (-126) as i32
    } else if i > 127 {
        127
    } else {
        i
    }
}

/// The logistic function with a polynomial in place of the exponential: `e` is
/// about `exp(-|x|)`.
pub open spec fn fast_sigmoid_of<R: Real>(x: R) -> R {
    let x = clamped(x, whole::<R>(30).negation_of(), whole(30));
    let y = x.magnitude_of().negation_of().product_of(R::ratio_of(12102203, 8388608));
    let whole_part = y.floor_of();
    let e = R::power_of_two(exponent_of(whole_part)).product_of(
        exp2_polynomial(y.difference_of(whole_part)),
    );
    let low = e.quotient_of(whole::<R>(1).sum_of(e));
    if le(whole(0), x) {
        whole::<R>(1).difference_of(low)
    } else {
        low
    }
}

/// Sigmoid of a narrow number with a polynomial `exp2` approximation. Saturates
/// beyond `[-30, 30]`.
pub fn sigmoid_fast_f32<R: Real>(x: R) -> (r: R)
    ensures
        r == fast_sigmoid_of(x),
{
    let x: R = clamp(x, constant::<R>(30).negate(), constant(30));
    let y: R = x.magnitude().negate().times(R::ratio(12102203, 8388608));
    let yi: R = y.floor();
    let yf: R = y.minus(yi);
    let c4: R = R::ratio(96181, 10_000_000).plus(yf.times(R::ratio(13427, 10_000_000)));
    let c3: R = R::ratio(555041, 10_000_000).plus(yf.times(c4));
    let c2: R = R::ratio(2402265, 10_000_000).plus(yf.times(c3));
    let c1: R = R::ratio(11629080, 16777216).plus(yf.times(c2));
    let p: R = constant::<R>(1).plus(yf.times(c1));
    let exponent: i32 = yi.to_i32();
    let exponent: i32 = if exponent < -126 {
        -126
    } else if exponent > 127 {
        127
    } else {
        exponent
    };
    let e: R = R::two_to(exponent).times(p);
    let low: R = e.over(constant::<R>(1).plus(e));
    if at_most(constant(0), x) {
        constant::<R>(1).minus(low)
    } else {
        low
    }
}

/// The labels as wide numbers.
pub open spec fn plain_terms<W: Wide>(labels: Seq<W::Narrow>) -> Seq<W> {
    Seq::new(labels.len(), |i: int| W::widened(labels[i]))
}

/// How many rows have both a label and a weight.
pub open spec fn shared<A, B>(a: Seq<A>, b: Seq<B>) -> nat {
    if a.len() <= b.len() {
        a.len()
    } else {
        b.len()
    }
}

/// Each label times its weight.
pub open spec fn weighted_terms<W: Wide>(labels: Seq<W::Narrow>, weights: Seq<W::Narrow>) -> Seq<
    W,
> {
    Seq::new(
        shared(labels, weights),
        |i: int| W::widened(weights[i]).product_of(W::widened(labels[i])),
    )
}

/// The log-odds of a mean label, kept away from 0 and 1.
pub open spec fn log_odds<W: Wide>(mean: W) -> W {
    let m = clamped(
        mean,
        W::ratio_of(1, 1_000_000),
        whole::<W>(1).difference_of(W::ratio_of(1, 1_000_000)),
    );
    m.quotient_of(whole::<W>(1).difference_of(m)).ln_of()
}

/// The prior log-odds of the labels, each counted with its weight.
pub open spec fn init_score_of<W: Wide>(
    labels: Seq<W::Narrow>,
    weights: Option<Seq<W::Narrow>>,
) -> W {
    match weights {
        None => log_odds(
            total(plain_terms::<W>(labels)).quotient_of(whole(labels.len() as u64)),
        ),
        Some(w) => log_odds(
            total(weighted_terms::<W>(labels, w)).quotient_of(
                total(plain_terms::<W>(w.take(shared(labels, w) as int))),
            ),
        ),
    }
}

/// The contents of optional weights.
pub open spec fn weights_of<N>(weights: Option<&[N]>) -> Option<Seq<N>> {
    match weights {
        Some(w) => Some(w@),
        None => None,
    }
}

fn sum_labels<W: Wide>(labels: &[W::Narrow]) -> (r: W)
    ensures
        r == total(plain_terms::<W>(labels@)),
{
    let ghost terms = plain_terms::<W>(labels@);
    let mut sum: W = constant(0);
    let mut i: usize = 0;
    assert(terms.take(0) =~= Seq::empty());
    while i < labels.len()
        invariant
            i <= labels@.len(),
            terms == plain_terms::<W>(labels@),
            sum == total(terms.take(i as int)),
        decreases labels@.len() - i,
    {
        assert(terms.take(i + 1).drop_last() =~= terms.take(i as int));
        sum = sum.plus(W::widen(labels[i]));
        i = i + 1;
    }
    assert(terms.take(i as int) =~= terms);
    sum
}

fn sum_weighted<W: Wide>(labels: &[W::Narrow], weights: &[W::Narrow]) -> (r: (W, W))
    ensures
        r.0 == total(weighted_terms::<W>(labels@, weights@)),
        r.1 == total(plain_terms::<W>(weights@.take(shared(labels@, weights@) as int))),
{
    let ghost tops = weighted_terms::<W>(labels@, weights@);
    let ghost bottoms = plain_terms::<W>(weights@.take(shared(labels@, weights@) as int));
    let n: usize = if labels.len() <= weights.len() {
        labels.len()
    } else {
        weights.len()
    };
    let mut pos: W = constant(0);
    let mut sum: W = constant(0);
    let mut i: usize = 0;
    proof {
        assert(tops.take(0) =~= Seq::empty());
        assert(bottoms.take(0) =~= Seq::empty());
    }
    while i < n
        invariant
            i <= n == shared(labels@, weights@),
            n <= labels@.len() && n <= weights@.len(),
            tops == weighted_terms::<W>(labels@, weights@),
            bottoms == plain_terms::<W>(weights@.take(n as int)),
            pos == total(tops.take(i as int)),
            sum == total(bottoms.take(i as int)),
        decreases n - i,
    {
        proof {
            assert(tops.take(i + 1).drop_last() =~= tops.take(i as int));
            assert(bottoms.take(i + 1).drop_last() =~= bottoms.take(i as int));
        }
        let w: W = W::widen(weights[i]);
        pos = pos.plus(w.times(W::widen(labels[i])));
        sum = sum.plus(w);
        i = i + 1;
    }
    proof {
        assert(tops.take(i as int) =~= tops);
        assert(bottoms.take(i as int) =~= bottoms);
    }
    (pos, sum)
}

/// Prior log-odds of the labels (weighted by `weights` if given). The boosting
/// loop starts from this constant.
pub fn init_score<W: Wide>(labels: &[W::Narrow], weights: Option<&[W::Narrow]>) -> (r: W)
    ensures
        r == init_score_of::<W>(labels@, weights_of(weights)),
{
    let mean: W = match weights {
        None => sum_labels::<W>(labels).over(constant(labels.len() as u64)),
        Some(w) => {
            let (pos, sum) = sum_weighted::<W>(labels, w);
            pos.over(sum)
        },
    };
    let least: W = W::ratio(1, 1_000_000);
    let m: W = clamp(mean, least, constant::<W>(1).minus(least));
    m.over(constant::<W>(1).minus(m)).ln()
}

/// The gradient of the loss of one row.
pub open spec fn gradient_of<W: Wide>(raw: W, label: W::Narrow) -> W::Narrow {
    fast_sigmoid_of(raw.narrowed()).difference_of(label)
}

/// The hessian of the loss of one row, kept away from zero.
pub open spec fn hessian_of<W: Wide>(raw: W) -> W::Narrow {
    let p = fast_sigmoid_of(raw.narrowed());
    let h = p.product_of(whole::<W::Narrow>(1).difference_of(p));
    let least = W::Narrow::ratio_of(1, 1_000_000);
    if lt(least, h) {
        h
    } else {
        least
    }
}

/// Gradient and hessian of a row, scaled by its weight if it has one.
pub open spec fn pair_of<W: Wide>(raw: W, label: W::Narrow, weight: Option<W::Narrow>) -> (
    W::Narrow,
    W::Narrow,
) {
    match weight {
        None => (gradient_of(raw, label), hessian_of(raw)),
        Some(w) => (
            w.product_of(gradient_of(raw, label)),
            w.product_of(hessian_of(raw)),
        ),
    }
}

/// The weight of a row.
pub open spec fn weight_at<N>(weights: Option<Seq<N>>, i: int) -> Option<N> {
    match weights {
        Some(w) => Some(w[i]),
        None => None,
    }
}

/// The gradient and hessian of every row.
pub open spec fn gradients_of<W: Wide>(
    raw_scores: Seq<W>,
    labels: Seq<W::Narrow>,
    weights: Option<Seq<W::Narrow>>,
) -> Seq<[W::Narrow; 2]> {
    Seq::new(
        raw_scores.len(),
        |i: int|
            {
                let (g, h) = pair_of(raw_scores[i], labels[i], weight_at(weights, i));
                [g, h]
            },
    )
}

/// `pairs[i]` is the gradient and hessian of row `i`, for every raw score.
spec fn packed<W: Wide>(
    raw_scores: Seq<W>,
    labels: Seq<W::Narrow>,
    weights: Option<Seq<W::Narrow>>,
    pairs: Seq<[W::Narrow; 2]>,
) -> bool {
    forall|i: int|
        #![trigger pairs[i]]
        0 <= i < raw_scores.len() ==> (pairs[i]@[0], pairs[i]@[1]) == pair_of(
            raw_scores[i],
            labels[i],
            weight_at(weights, i),
        )
}

proof fn lemma_packed<W: Wide>(
    raw_scores: Seq<W>,
    labels: Seq<W::Narrow>,
    weights: Option<Seq<W::Narrow>>,
    pairs: Seq<[W::Narrow; 2]>,
)
    requires
        packed(raw_scores, labels, weights, pairs),
        raw_scores.len() <= pairs.len(),
    ensures
        pairs.take(raw_scores.len() as int) == gradients_of(raw_scores, labels, weights),
{
    let want = gradients_of(raw_scores, labels, weights);
    assert forall|i: int| 0 <= i < raw_scores.len() implies #[trigger] pairs.take(
        raw_scores.len() as int,
    )[i] == want[i] by {
        assert(pairs[i] =~= want[i]);
    }
}

/// Gradient and hessian of one row.
fn pair<W: Wide>(raw: W, label: W::Narrow) -> (r: (W::Narrow, W::Narrow))
    ensures
        r == pair_of(raw, label, None::<W::Narrow>),
{
    let p: W::Narrow = sigmoid_fast_f32(raw.narrow());
    let h: W::Narrow = p.times(constant::<W::Narrow>(1).minus(p));
    let least: W::Narrow = W::Narrow::ratio(1, 1_000_000);
    let h: W::Narrow = if less(least, h) {
        h
    } else {
        least
    };
    (p.minus(label), h)
}

/// Write packed `[grad, hess]` pairs from current raw scores and labels. With
/// `weights`, each row's grad and hess are scaled by its weight, which carries
/// through the histogram sums into leaf values and split gains.
pub fn gradients_packed<W: Wide>(
    raw_scores: &[W],
    labels: &[W::Narrow],
    weights: Option<&[W::Narrow]>,
    out: &mut [[W::Narrow; 2]],
)
    requires
        raw_scores@.len() <= labels@.len(),
        raw_scores@.len() <= old(out)@.len(),
        weights matches Some(w) ==> raw_scores@.len() <= w@.len(),
    ensures
        final(out)@ == gradients_of(raw_scores@, labels@, weights_of(weights)) + old(out)@.skip(
            raw_scores@.len() as int,
        ),
{
    let ghost before = out@;
    match weights {
        None => gradients_unweighted(raw_scores, labels, out),
        Some(w) => gradients_weighted(raw_scores, labels, w, out),
    }
    proof {
        lemma_packed(raw_scores@, labels@, weights_of(weights), out@);
        assert(out@ =~= out@.take(raw_scores@.len() as int) + before.skip(
            raw_scores@.len() as int,
        ));
    }
}

fn gradients_unweighted<W: Wide>(
    raw_scores: &[W],
    labels: &[W::Narrow],
    out: &mut [[W::Narrow; 2]],
)
    requires
        raw_scores@.len() <= labels@.len(),
        raw_scores@.len() <= old(out)@.len(),
    ensures
        final(out)@.len() == old(out)@.len(),
        packed(raw_scores@, labels@, None::<Seq<W::Narrow>>, final(out)@),
        forall|i: int|
            raw_scores@.len() <= i < old(out)@.len() ==> #[trigger] final(out)@[i] == old(out)@[i],
{
    let ghost before = out@;
    let mut i: usize = 0;
    while i < raw_scores.len()
        invariant
            i <= raw_scores@.len() <= labels@.len(),
            raw_scores@.len() <= out@.len() == before.len(),
            packed(raw_scores@.take(i as int), labels@, None::<Seq<W::Narrow>>, out@),
            forall|k: int| i <= k < before.len() ==> #[trigger] out@[k] == before[k],
        decreases raw_scores@.len() - i,
    {
        let (g, h) = pair(raw_scores[i], labels[i]);
        out[i] = [g, h];
        i = i + 1;
    }
    assert(raw_scores@.take(i as int) =~= raw_scores@);
}

fn gradients_weighted<W: Wide>(
    raw_scores: &[W],
    labels: &[W::Narrow],
    w: &[W::Narrow],
    out: &mut [[W::Narrow; 2]],
)
    requires
        raw_scores@.len() <= labels@.len(),
        raw_scores@.len() <= w@.len(),
        raw_scores@.len() <= old(out)@.len(),
    ensures
        final(out)@.len() == old(out)@.len(),
        packed(raw_scores@, labels@, Some(w@), final(out)@),
        forall|i: int|
            raw_scores@.len() <= i < old(out)@.len() ==> #[trigger] final(out)@[i] == old(out)@[i],
{
    let ghost before = out@;
    let mut i: usize = 0;
    while i < raw_scores.len()
        invariant
            i <= raw_scores@.len() <= labels@.len(),
            raw_scores@.len() <= w@.len(),
            raw_scores@.len() <= out@.len() == before.len(),
            packed(raw_scores@.take(i as int), labels@, Some(w@), out@),
            forall|k: int| i <= k < before.len() ==> #[trigger] out@[k] == before[k],
        decreases raw_scores@.len() - i,
    {
        let (g, h) = pair(raw_scores[i], labels[i]);
        let wi: W::Narrow = w[i];
        out[i] = [wi.times(g), wi.times(h)];
        i = i + 1;
    }
    assert(raw_scores@.take(i as int) =~= raw_scores@);
}

/// The cross-entropy of one row.
pub open spec fn row_logloss<W: Wide>(raw: W, label: W::Narrow) -> W {
    let least = W::ratio_of(1, 1_000_000_000_000_000);
    let p = clamped(sigmoid_of(raw), least, whole::<W>(1).difference_of(least));
    let y = W::widened(label);
    y.product_of(p.ln_of()).sum_of(
        whole::<W>(1).difference_of(y).product_of(whole::<W>(1).difference_of(p).ln_of()),
    ).negation_of()
}

/// The mean cross-entropy of all raw scores.
pub open spec fn logloss_of<W: Wide>(raw_scores: Seq<W>, labels: Seq<W::Narrow>) -> W {
    total(Seq::new(raw_scores.len(), |i: int| row_logloss(raw_scores[i], labels[i]))).quotient_of(
        whole(raw_scores.len() as u64),
    )
}

/// Binary cross-entropy on raw additive scores. Lower is better.
pub fn binary_logloss<W: Wide>(raw_scores: &[W], labels: &[W::Narrow]) -> (r: W)
    requires
        raw_scores@.len() <= labels@.len(),
    ensures
        r == logloss_of(raw_scores@, labels@),
{
    let ghost terms = Seq::new(
        raw_scores@.len(),
        |i: int| row_logloss(raw_scores@[i], labels@[i]),
    );
    let least: W = W::ratio(1, 1_000_000_000_000_000);
    let one: W = constant(1);
    let mut sum: W = constant(0);
    let mut i: usize = 0;
    assert(terms.take(0) =~= Seq::empty());
    while i < raw_scores.len()
        invariant
            i <= raw_scores@.len() <= labels@.len(),
            terms == Seq::new(
                raw_scores@.len(),
                |i: int| row_logloss(raw_scores@[i], labels@[i]),
            ),
            least == W::ratio_of(1, 1_000_000_000_000_000),
            one == whole::<W>(1),
            sum == total(terms.take(i as int)),
        decreases raw_scores@.len() - i,
    {
        assert(terms.take(i + 1).drop_last() =~= terms.take(i as int));
        let p: W = clamp(sigmoid(raw_scores[i]), least, one.minus(least));
        let y: W = W::widen(labels[i]);
        sum = sum.plus(y.times(p.ln()).plus(one.minus(y).times(one.minus(p).ln())).negate());
        i = i + 1;
    }
    assert(terms.take(i as int) =~= terms);
    sum.over(constant(raw_scores.len() as u64))
}

/// No hessian falls below one millionth, so no leaf is divided by nothing.
pub proof fn law_hessian_floor<W: Wide>(raw: W)
    requires
        W::Narrow::ratio_of(1, 1_000_000).rank_of() is Some,
    ensures
        le(W::Narrow::ratio_of(1, 1_000_000), hessian_of(raw)),
{
}

/// The weight of a row scales its gradient and its hessian alike.
pub proof fn law_weights_scale<W: Wide>(
    raw: Seq<W>,
    labels: Seq<W::Narrow>,
    weights: Seq<W::Narrow>,
    i: int,
)
    requires
        0 <= i < raw.len(),
    ensures
        ({
            let plain = gradients_of(raw, labels, None::<Seq<W::Narrow>>)[i]@;
            let scaled = gradients_of(raw, labels, Some(weights))[i]@;
            &&& scaled[0] == weights[i].product_of(plain[0])
            &&& scaled[1] == weights[i].product_of(plain[1])
        }),
{
}

} // verus!
