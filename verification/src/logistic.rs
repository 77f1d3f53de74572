//! What the logistic loss is: how probability, gradient, hessian, loss and start
//! belong together.

use vstd::prelude::*;

use crate::fixed::{lemma_doubled, toward_zero, Fixed, SCALE};
use crate::loss::{
    exp2_polynomial, exponent_of, fast_sigmoid_of, gradients_of, hessian_of, init_score_of,
    law_sigmoid_within_one, logloss_of, plain_terms, row_logloss, sigmoid_of, weighted_terms,
};
use crate::number::{clamped, le, lt, total, whole, Real, Wide};
use crate::objective::binary::{wide_gradient, wide_hessian};

verus! {

// Gradients and hessians.

/// The larger of `x` and one millionth.
pub open spec fn floored<R: Real>(x: R) -> R {
    if lt(R::ratio_of(1, 1_000_000), x) {
        x
    } else {
        R::ratio_of(1, 1_000_000)
    }
}

/// The gradient of a row is its probability minus its label, and its hessian is the
/// probability times the probability of the other label, at least one millionth. A
/// weight scales both.
pub proof fn law_gradient_and_hessian<W: Wide>(
    raw: Seq<W>,
    labels: Seq<W::Narrow>,
    weights: Option<Seq<W::Narrow>>,
    i: int,
)
    requires
        0 <= i < raw.len(),
    ensures
        ({
            let pair = gradients_of(raw, labels, weights)[i]@;
            let p = fast_sigmoid_of(raw[i].narrowed());
            let other = whole::<W::Narrow>(1).difference_of(p);
            let gradient = p.difference_of(labels[i]);
            let hessian = floored(p.product_of(other));
            match weights {
                None => pair[0] == gradient && pair[1] == hessian,
                Some(w) => pair[0] == w[i].product_of(gradient) && pair[1] == w[i].product_of(
                    hessian,
                ),
            }
        }),
{
}

/// The same in the wide type, as the objective computes it.
pub proof fn law_wide_gradient_and_hessian<W: Wide>(raw: W, label: W::Narrow)
    ensures
        ({
            let p = sigmoid_of(raw);
            let other = whole::<W>(1).difference_of(p);
            &&& wide_gradient(raw, label) == p.difference_of(W::widened(label)).narrowed()
            &&& wide_hessian(raw) == floored(p.product_of(other)).narrowed()
        }),
{
}

/// The logistic function is one over one plus the exponential of the negated number,
/// or, which is the same but does not overflow below zero, the exponential over one
/// plus the exponential.
pub proof fn law_sigmoid<R: Real>(x: R)
    ensures
        le(whole(0), x) ==> sigmoid_of(x) == whole::<R>(1).quotient_of(
            whole::<R>(1).sum_of(x.negation_of().exp_of()),
        ),
        !le(whole(0), x) ==> sigmoid_of(x) == x.exp_of().quotient_of(
            whole::<R>(1).sum_of(x.exp_of()),
        ),
{
}

// In fixed point, where arithmetic is exact enough to say more.

proof fn lemma_product_quarter(u: int)
    ensures
        toward_zero(u * (SCALE - u), SCALE as int) <= SCALE / 4,
{
    let a = u * (SCALE - u);
    assert(4 * a <= SCALE * SCALE) by (nonlinear_arith)
        requires
            a == u * (SCALE - u),
            SCALE == 0x1_0000_0000,
    {
        let d = 2 * u - SCALE;
        assert(d * d >= 0);
        assert(d * d == 4 * u * u - 4 * u * SCALE + SCALE * SCALE);
        assert(u * (SCALE - u) == u * SCALE - u * u);
    }
    if a >= 0 {
        assert(a / (SCALE as int) <= SCALE / 4) by (nonlinear_arith)
            requires
                0 <= a,
                4 * a <= SCALE * SCALE,
                SCALE == 0x1_0000_0000,
        ;
    } else {
        assert((-a) / (SCALE as int) >= 0) by (nonlinear_arith)
            requires
                a < 0,
                SCALE == 0x1_0000_0000,
        ;
    }
}

/// A hessian never exceeds a quarter, which it has at even odds.
pub proof fn law_hessian_at_most_quarter(raw: Fixed)
    ensures
        hessian_of(raw).units <= SCALE / 4,
        wide_hessian(raw).units <= SCALE / 4,
{
    lemma_fast_in_range(raw);
    lemma_product_quarter(fast_sigmoid_of(raw).units as int);
    lemma_sigmoid_in_range(raw);
    lemma_product_quarter(sigmoid_of(raw).units as int);
}

proof fn lemma_sigmoid_in_range(raw: Fixed)
    ensures
        0 <= sigmoid_of(raw).units <= SCALE,
{
    law_sigmoid_within_one(raw);
}

/// What stands in for the exponential in the fast logistic function.
spec fn fast_exp(x: Fixed) -> Fixed {
    let x = clamped(x, whole::<Fixed>(30).negation_of(), whole(30));
    let y = x.magnitude_of().negation_of().product_of(Fixed::ratio_of(12102203, 8388608));
    let whole_part = y.floor_of();
    Fixed::power_of_two(exponent_of(whole_part)).product_of(
        exp2_polynomial(y.difference_of(whole_part)),
    )
}

proof fn lemma_product_positive(a: Fixed, b: Fixed)
    requires
        0 <= a.units,
        0 <= b.units,
    ensures
        0 <= a.product_of(b).units,
{
    let x = a.units as int;
    let y = b.units as int;
    assert(x * y >= 0) by (nonlinear_arith)
        requires
            x >= 0,
            y >= 0,
    ;
    assert(x * y / (SCALE as int) >= 0) by (nonlinear_arith)
        requires
            x * y >= 0,
            SCALE == 0x1_0000_0000,
    ;
}

proof fn lemma_fast_exp(x: Fixed)
    ensures
        0 <= fast_exp(x).units,
{
    let x = clamped(x, whole::<Fixed>(30).negation_of(), whole(30));
    let rate = Fixed::ratio_of(12102203, 8388608);
    let y = x.magnitude_of().negation_of().product_of(rate);
    let whole_part = y.floor_of();
    let f = y.difference_of(whole_part);
    assert(0 <= f.units) by {
        assert(0 <= y.units as int % SCALE as int);
    }
    let c5 = Fixed::ratio_of(13427, 10_000_000);
    let c4 = Fixed::ratio_of(96181, 10_000_000).sum_of(f.product_of(c5));
    let c3 = Fixed::ratio_of(555041, 10_000_000).sum_of(f.product_of(c4));
    let c2 = Fixed::ratio_of(2402265, 10_000_000).sum_of(f.product_of(c3));
    let c1 = Fixed::ratio_of(11629080, 16777216).sum_of(f.product_of(c2));
    lemma_product_positive(f, c5);
    lemma_product_positive(f, c4);
    lemma_product_positive(f, c3);
    lemma_product_positive(f, c2);
    lemma_product_positive(f, c1);
    let exponent = exponent_of(whole_part);
    assert(0 <= Fixed::power_of_two(exponent).units) by {
        if -32 <= exponent <= 30 {
            lemma_doubled((exponent + 32) as nat);
        }
    }
    lemma_product_positive(Fixed::power_of_two(exponent), exp2_polynomial(f));
}

/// The share of a number that is not negative in one plus itself.
proof fn lemma_low(e: Fixed)
    requires
        0 <= e.units,
    ensures
        0 <= e.quotient_of(whole::<Fixed>(1).sum_of(e)).units <= SCALE,
{
    let u = e.units as int;
    let d = whole::<Fixed>(1).sum_of(e).units as int;
    assert(0 <= u * SCALE / d <= SCALE) by (nonlinear_arith)
        requires
            0 <= u <= d,
            d > 0,
            SCALE == 0x1_0000_0000,
    ;
    assert(u * SCALE >= 0);
}

proof fn lemma_fast_in_range(x: Fixed)
    ensures
        0 <= fast_sigmoid_of(x).units <= SCALE,
{
    lemma_fast_exp(x);
    lemma_low(fast_exp(x));
}

/// The fast logistic function of a number and of its negation are the probabilities
/// of the two labels: they lie between zero and one and add up to one.
pub proof fn law_fast_sigmoid_complements(x: Fixed)
    requires
        x.units > 0,
    ensures
        0 <= fast_sigmoid_of(x).units <= SCALE,
        fast_sigmoid_of(x).units + fast_sigmoid_of(x.negation_of()).units == SCALE,
{
    let n = x.negation_of();
    lemma_fast_exp(x);
    lemma_low(fast_exp(x));
    let lo = whole::<Fixed>(30).negation_of();
    let hi = whole::<Fixed>(30);
    assert(lo.units == -30 * SCALE && hi.units == 30 * SCALE);
    assert(clamped(x, lo, hi).magnitude_of() == clamped(n, lo, hi).magnitude_of());
    assert(fast_exp(n) == fast_exp(x));
}

/// So a raw score and its negation have the same hessian.
pub proof fn law_hessian_symmetric(x: Fixed)
    requires
        x.units > 0,
    ensures
        hessian_of(x) == hessian_of(x.negation_of()),
{
    law_fast_sigmoid_complements(x);
    let p = fast_sigmoid_of(x).units as int;
    let q = fast_sigmoid_of(x.negation_of()).units as int;
    assert(p * q == q * p) by (nonlinear_arith);
}

// The loss.

proof fn lemma_times_one(x: Fixed)
    ensures
        whole::<Fixed>(1).product_of(x) == x,
        whole::<Fixed>(0).product_of(x) == whole::<Fixed>(0),
{
    let u = x.units as int;
    assert(toward_zero(SCALE * u, SCALE as int) == u) by {
        if u >= 0 {
            assert((SCALE * u) / (SCALE as int) == u) by (nonlinear_arith)
                requires
                    SCALE == 0x1_0000_0000,
            ;
        } else {
            assert((-(SCALE * u)) / (SCALE as int) == -u) by (nonlinear_arith)
                requires
                    SCALE == 0x1_0000_0000,
            ;
        }
    }
    assert(0 * u == 0);
}

/// The probability of a row, kept away from zero and one.
pub open spec fn kept_probability(raw: Fixed) -> Fixed {
    let least = Fixed::ratio_of(1, 1_000_000_000_000_000);
    let p = sigmoid_of(raw);
    if lt(p, least) {
        least
    } else if lt(whole::<Fixed>(1).difference_of(least), p) {
        whole::<Fixed>(1).difference_of(least)
    } else {
        p
    }
}

/// The loss of a row is minus the logarithm of the probability of its label.
pub proof fn law_loss_of_label(raw: Fixed)
    ensures
        row_logloss(raw, whole::<Fixed>(1)) == kept_probability(raw).ln_of().negation_of(),
        row_logloss(raw, whole::<Fixed>(0)) == whole::<Fixed>(1).difference_of(
            kept_probability(raw),
        ).ln_of().negation_of(),
{
    let p = kept_probability(raw);
    let a = p.ln_of();
    let b = whole::<Fixed>(1).difference_of(p).ln_of();
    lemma_times_one(a);
    lemma_times_one(b);
    assert(whole::<Fixed>(1).difference_of(whole::<Fixed>(1)) == whole::<Fixed>(0));
    assert(whole::<Fixed>(1).difference_of(whole::<Fixed>(0)) == whole::<Fixed>(1));
    assert(a.sum_of(whole::<Fixed>(0)) == a);
    assert(whole::<Fixed>(0).sum_of(b) == b);
}

/// The loss of any label is the mixture of the two, and the loss of all rows is the
/// mean of theirs.
pub proof fn law_mean_loss<W: Wide>(raw: Seq<W>, labels: Seq<W::Narrow>)
    ensures
        logloss_of(raw, labels) == total(
            Seq::new(raw.len(), |i: int| logloss_term(raw[i], W::widened(labels[i]))),
        ).quotient_of(whole(raw.len() as u64)),
{
    assert(Seq::new(raw.len(), |i: int| logloss_term(raw[i], W::widened(labels[i]))) =~= Seq::new(
        raw.len(),
        |i: int| row_logloss(raw[i], labels[i]),
    ));
}

/// Minus `y ln p + (1 - y) ln (1 - p)`, with the probability kept away from zero and
/// one.
pub open spec fn logloss_term<W: Wide>(raw: W, y: W) -> W {
    let least = W::ratio_of(1, 1_000_000_000_000_000);
    let one = whole::<W>(1);
    let q = sigmoid_of(raw);
    let p = if lt(q, least) {
        least
    } else if lt(one.difference_of(least), q) {
        one.difference_of(least)
    } else {
        q
    };
    y.product_of(p.ln_of()).sum_of(
        one.difference_of(y).product_of(one.difference_of(p).ln_of()),
    ).negation_of()
}

// The start.

/// `start` is the log-odds of a mean, which is kept a millionth away from zero and
/// one.
pub open spec fn is_log_odds<W: Wide>(mean: W, start: W) -> bool {
    let least = W::ratio_of(1, 1_000_000);
    let most = whole::<W>(1).difference_of(least);
    let m = if lt(mean, least) {
        least
    } else if lt(most, mean) {
        most
    } else {
        mean
    };
    start == m.quotient_of(whole::<W>(1).difference_of(m)).ln_of()
}

/// Boosting starts from the log-odds of the mean label; with weights, of the weighted
/// mean.
pub proof fn law_init_score<W: Wide>(labels: Seq<W::Narrow>, weights: Seq<W::Narrow>)
    requires
        labels.len() == weights.len(),
    ensures
        is_log_odds(
            total(Seq::new(labels.len(), |i: int| W::widened(labels[i]))).quotient_of(
                whole(labels.len() as u64),
            ),
            init_score_of::<W>(labels, None),
        ),
        is_log_odds(
            total(
                Seq::new(
                    labels.len(),
                    |i: int| W::widened(weights[i]).product_of(W::widened(labels[i])),
                ),
            ).quotient_of(total(Seq::new(labels.len(), |i: int| W::widened(weights[i])))),
            init_score_of::<W>(labels, Some(weights)),
        ),
{
    assert(plain_terms::<W>(labels) =~= Seq::new(
        labels.len(),
        |i: int| W::widened(labels[i]),
    ));
    assert(plain_terms::<W>(weights.take(labels.len() as int)) =~= Seq::new(
        labels.len(),
        |i: int| W::widened(weights[i]),
    ));
    assert(weighted_terms::<W>(labels, weights) =~= Seq::new(
        labels.len(),
        |i: int| W::widened(weights[i]).product_of(W::widened(labels[i])),
    ));
}

proof fn lemma_total_of_ones(n: nat)
    requires
        n < 0x4000_0000,
    ensures
        total(Seq::new(n, |i: int| whole::<Fixed>(1))) == whole::<Fixed>(n as u64),
    decreases n,
{
    let ones = Seq::new(n, |i: int| whole::<Fixed>(1));
    if n > 0 {
        lemma_total_of_ones((n - 1) as nat);
        assert(ones.drop_last() =~= Seq::new((n - 1) as nat, |i: int| whole::<Fixed>(1)));
    }
}

/// Weights of one change nothing.
pub proof fn law_unit_weights(labels: Seq<Fixed>)
    requires
        labels.len() < 0x4000_0000,
    ensures
        ({
            let ones = Seq::new(labels.len(), |i: int| whole::<Fixed>(1));
            init_score_of::<Fixed>(labels, Some(ones)) == init_score_of::<Fixed>(labels, None)
        }),
{
    let ones = Seq::new(labels.len(), |i: int| whole::<Fixed>(1));
    lemma_total_of_ones(labels.len());
    assert(plain_terms::<Fixed>(ones.take(labels.len() as int)) =~= ones);
    assert forall|i: int| 0 <= i < labels.len() implies (
    #[trigger] weighted_terms::<Fixed>(labels, ones)[i])
        == plain_terms::<Fixed>(labels)[i] by {
        lemma_times_one(labels[i]);
    }
    assert(weighted_terms::<Fixed>(labels, ones) =~= plain_terms::<
        Fixed,
    >(labels));
}

} // verus!
