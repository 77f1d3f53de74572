//! What a categorical split is for: the group of categories, taken from one end of
//! their order by smoothed gradient ratio, that lowers the loss the most.

use vstd::prelude::*;

use crate::number::{le, lt, whole, Wide};
use crate::order::{ascending_key, by_key, lemma_order_of, order_of, positions};
use crate::tree::bitset::lemma_bitset_of;
use crate::tree::histogram::HistBin;
use crate::tree::laws::beats;
use crate::tree::newton::{allowed, gain_at, gains_by_newton, lemma_gain_of};
use crate::tree::split::{group_minimum, Query, Split, Sums};
use crate::tree::MissingDir;

verus! {

// The categories that take part.

/// A category takes part in a split if it has rows, and at least
/// `min_data_per_group` of them. The missing bin is one more category.
pub open spec fn takes_part<W: Wide>(q: Query<W>, b: int) -> bool {
    &&& 0 <= b < q.hist.len()
    &&& q.hist[b].count >= 1
    &&& q.hist[b].count >= q.rules.min_data_per_group
}

/// How many of the first `n` categories take part.
pub open spec fn participants<W: Wide>(q: Query<W>, n: nat) -> nat
    decreases n,
{
    if n == 0 {
        0
    } else {
        participants(q, (n - 1) as nat) + if takes_part(q, n - 1) {
            1nat
        } else {
            0nat
        }
    }
}

proof fn lemma_participants<W: Wide>(q: Query<W>, n: nat)
    requires
        n <= q.hist.len() <= 0x10000,
    ensures
        ({
            let used = positions(0, n as int).filter(
                |b: usize| q.hist[b as int].count >= group_minimum(q.rules),
            );
            &&& used.len() == participants(q, n)
            &&& forall|i: int, j: int|
                #![trigger used[i], used[j]]
                0 <= i < j < used.len() ==> used[i] < used[j]
            &&& forall|i: int|
                0 <= i < used.len() ==> (#[trigger] used[i]) < n && takes_part(q, used[i] as int)
            &&& forall|b: usize| b < n && #[trigger] takes_part(q, b as int) ==> used.contains(b)
        }),
    decreases n,
{
    reveal(Seq::filter);
    let enough = |b: usize| q.hist[b as int].count >= group_minimum(q.rules);
    let all = positions(0, n as int);
    if n == 0 {
        assert(all.filter(enough) =~= Seq::<usize>::empty());
    } else {
        let k = (n - 1) as nat;
        lemma_participants(q, k);
        assert(all.drop_last() =~= positions(0, k as int));
        let before = positions(0, k as int).filter(enough);
        let used = all.filter(enough);
        assert(enough(k as usize) <==> takes_part(q, k as int));
        assert(used == if enough(k as usize) {
            before.push(k as usize)
        } else {
            before
        });
        assert forall|b: usize| b < n && #[trigger] takes_part(q, b as int) implies used.contains(
            b,
        ) by {
            if b < k {
                assert(before.contains(b));
                let i = choose|i: int| 0 <= i < before.len() && before[i] == b;
                assert(used[i] == b);
            } else {
                assert(used[used.len() - 1] == b);
            }
        }
    }
}

/// The categories that are searched are exactly those that take part, in bin order.
pub proof fn law_participants<W: Wide>(q: Query<W>)
    requires
        q.hist.len() <= 0x10000,
    ensures
        q.used().len() == participants(q, q.hist.len()),
        forall|i: int, j: int|
            #![trigger q.used()[i], q.used()[j]]
            0 <= i < j < q.used().len() ==> q.used()[i] < q.used()[j],
        forall|i: int| 0 <= i < q.used().len() ==> takes_part(q, (#[trigger] q.used()[i]) as int),
        forall|b: usize| #[trigger] takes_part(q, b as int) ==> q.used().contains(b),
{
    lemma_participants(q, q.hist.len());
}

// Their order.

/// The gradient ratio of category `b` is at most that of category `c`, when the two
/// compare. The ratio is the gradient sum over the smoothed hessian sum.
pub open spec fn ratio_at_most<W: Wide>(q: Query<W>, b: int, c: int) -> bool {
    let smooth = q.rules.cat_smooth;
    let first = q.hist[b].grad.quotient_of(q.hist[b].hess.sum_of(smooth));
    let second = q.hist[c].grad.quotient_of(q.hist[c].hess.sum_of(smooth));
    first.rank_of() is Some && second.rank_of() is Some ==> le(first, second)
}

/// Two categories have the same gradient ratio.
pub open spec fn same_ratio<W: Wide>(q: Query<W>, b: int, c: int) -> bool {
    let smooth = q.rules.cat_smooth;
    q.hist[b].grad.quotient_of(q.hist[b].hess.sum_of(smooth)) == q.hist[c].grad.quotient_of(
        q.hist[c].hess.sum_of(smooth),
    )
}

proof fn lemma_ranked<W: Wide>(q: Query<W>, bins: Seq<usize>)
    requires
        bins.len() <= usize::MAX,
    ensures
        q.ranked(bins).len() == bins.len(),
        forall|i: int, j: int|
            #![trigger q.ranked(bins)[i], q.ranked(bins)[j]]
            0 <= i < j < bins.len() ==> ratio_at_most(
                q,
                q.ranked(bins)[i] as int,
                q.ranked(bins)[j] as int,
            ),
        forall|i: int| 0 <= i < bins.len() ==> bins.contains(#[trigger] q.ranked(bins)[i]),
        forall|k: int| 0 <= k < bins.len() ==> q.ranked(bins).contains(#[trigger] bins[k]),
{
    let keys = Seq::new(bins.len(), |i: int| ascending_key(q.ratio(bins[i]).rank_of()));
    lemma_order_of(keys);
    let order = order_of(keys);
    let ranked = q.ranked(bins);
    assert forall|i: int, j: int|
        #![trigger ranked[i], ranked[j]]
        0 <= i < j < bins.len() implies ratio_at_most(q, ranked[i] as int, ranked[j] as int) by {
        assert(by_key(keys)(order[i], order[j]));
        assert(order[i] < keys.len() && order[j] < keys.len());
        assert(keys[order[i] as int] <= keys[order[j] as int]);
    }
    assert forall|i: int| 0 <= i < bins.len() implies bins.contains(#[trigger] ranked[i]) by {
        assert(order[i] < keys.len());
        assert(bins[order[i] as int] == ranked[i]);
    }
    assert forall|k: int| 0 <= k < bins.len() implies ranked.contains(#[trigger] bins[k]) by {
        assert(order.contains(k as usize));
        let i = choose|i: int| 0 <= i < order.len() && order[i] == k as usize;
        assert(ranked[i] == bins[k]);
    }
}

/// The order in which categories are scanned lists those that take part, each once,
/// by ascending ratio of the gradient sum to the smoothed hessian sum; categories of
/// the same ratio stand in bin order.
pub proof fn law_ratio_order<W: Wide>(q: Query<W>, i: int, j: int)
    requires
        q.hist.len() <= 0x10000,
        0 <= i < j < q.used().len(),
    ensures
        ({
            let order = q.ranked(q.used());
            &&& order.len() == participants(q, q.hist.len())
            &&& takes_part(q, order[i] as int) && takes_part(q, order[j] as int)
            &&& order[i] != order[j]
            &&& ratio_at_most(q, order[i] as int, order[j] as int)
            &&& same_ratio(q, order[i] as int, order[j] as int) ==> order[i] < order[j]
            &&& forall|b: usize| #[trigger] takes_part(q, b as int) ==> order.contains(b)
        }),
{
    let used = q.used();
    law_participants(q);
    lemma_used_bound(q);
    lemma_ranked(q, used);
    let ranked = q.ranked(used);
    let keys = Seq::new(used.len(), |i: int| ascending_key(q.ratio(used[i]).rank_of()));
    lemma_order_of(keys);
    let order = order_of(keys);
    assert(by_key(keys)(order[i], order[j]));
    assert(order[i] < keys.len() && order[j] < keys.len());
    assert(order[i] != order[j]);
    if order[i] < order[j] {
        assert(used[order[i] as int] < used[order[j] as int]);
    } else {
        assert(used[order[j] as int] < used[order[i] as int]);
    }
    assert(used.contains(ranked[i]) && used.contains(ranked[j]));
    assert forall|b: usize| #[trigger] takes_part(q, b as int) implies ranked.contains(b) by {
        assert(used.contains(b));
        let k = choose|k: int| 0 <= k < used.len() && used[k] == b;
        assert(ranked.contains(used[k]));
    }
}

proof fn lemma_used_bound<W: Wide>(q: Query<W>)
    requires
        q.hist.len() <= 0x10000,
    ensures
        q.used().len() <= 0x10000,
        q.used().len() <= q.hist.len(),
{
    positions(0, q.hist.len() as int).lemma_filter_len(
        |b: usize| q.hist[b as int].count >= group_minimum(q.rules),
    );
}

// Groups of categories.

/// The gradients, the hessians and the rows of a list of categories, added up in
/// the order in which they are listed.
pub open spec fn listed_grad<W: Wide>(hist: Seq<HistBin<W>>, list: Seq<u16>) -> W
    decreases list.len(),
{
    if list.len() == 0 {
        whole(0)
    } else {
        listed_grad(hist, list.drop_last()).sum_of(hist[list.last() as int].grad)
    }
}

pub open spec fn listed_hess<W: Wide>(hist: Seq<HistBin<W>>, list: Seq<u16>) -> W
    decreases list.len(),
{
    if list.len() == 0 {
        whole(0)
    } else {
        listed_hess(hist, list.drop_last()).sum_of(hist[list.last() as int].hess)
    }
}

pub open spec fn listed_count<W: Wide>(hist: Seq<HistBin<W>>, list: Seq<u16>) -> int
    decreases list.len(),
{
    if list.len() == 0 {
        0
    } else {
        listed_count(hist, list.drop_last()) + hist[list.last() as int].count
    }
}

/// Bins as codes.
pub open spec fn as_codes(bins: Seq<usize>) -> Seq<u16> {
    bins.map_values(|b: usize| b as u16)
}

proof fn lemma_together<W: Wide>(q: Query<W>, bins: Seq<usize>)
    requires
        bins.len() <= 0x10000,
        q.hist.len() <= 0x10000,
        forall|i: int| 0 <= i < bins.len() ==> (#[trigger] bins[i]) < q.hist.len(),
    ensures
        q.together(bins).grad == listed_grad(q.hist, as_codes(bins)),
        q.together(bins).hess == listed_hess(q.hist, as_codes(bins)),
        q.together(bins).count == listed_count(q.hist, as_codes(bins)),
        0 <= q.together(bins).count <= 0x1_0000_0000_0000,
    decreases bins.len(),
{
    q.lemma_together_bound(bins);
    if bins.len() > 0 {
        let init = bins.drop_last();
        q.lemma_together_bound(init);
        assert(bins[bins.len() - 1] < q.hist.len());
        assert forall|i: int| 0 <= i < init.len() implies (#[trigger] init[i]) < q.hist.len() by {
            assert(bins[i] == init[i]);
        }
        lemma_together(q, init);
        assert(as_codes(bins).drop_last() =~= as_codes(init));
        assert(as_codes(bins).last() as usize == bins.last());
    }
}

/// The L2 regularization of categorical gains.
pub open spec fn categorical_l2<W: Wide>(q: Query<W>) -> W {
    q.rules.lambda_l2.sum_of(q.rules.cat_l2)
}

/// `list` holds one end of the order by gradient ratio: every listed category comes
/// before every other one that takes part, or every one comes after.
pub open spec fn is_end<W: Wide>(q: Query<W>, list: Seq<u16>) -> bool {
    ||| forall|b: u16, c: u16|
        list.contains(b) && !list.contains(c) && takes_part(q, c as int) ==> #[trigger] ratio_at_most(
            q,
            b as int,
            c as int,
        )
    ||| forall|b: u16, c: u16|
        list.contains(b) && !list.contains(c) && takes_part(q, c as int) ==> #[trigger] ratio_at_most(
            q,
            c as int,
            b as int,
        )
}

/// What holds of every split by a group of categories: it sends exactly the listed
/// categories left, all of which take part, and gains the Newton gain of its sums.
pub open spec fn is_group_split<W: Wide>(q: Query<W>, s: Split<W>) -> bool {
    &&& s.feature == q.feature
    &&& s.threshold_bin == 0 && s.missing_dir == MissingDir::Left
    &&& s.cat_left_bins matches Some(list)
    &&& list.len() >= 1
    &&& list.no_duplicates()
    &&& forall|c: u16| list.contains(c) ==> #[trigger] takes_part(q, c as int)
    &&& forall|c: u16| #[trigger] s.left(c) <==> list.contains(c)
    &&& gains_by_newton(q, s, categorical_l2(q))
}

proof fn lemma_group_candidate<W: Wide>(q: Query<W>, bins: Seq<usize>, left: Sums<W>)
    requires
        q.hist.len() <= 0x10000,
        0 <= q.parent.count <= u32::MAX,
        0 <= left.count <= 0x1_0000_0000_0000,
        bins.len() >= 1,
        bins.no_duplicates(),
        forall|i: int| 0 <= i < bins.len() ==> takes_part(q, (#[trigger] bins[i]) as int),
    ensures
        ({
            let sums = (left.grad, left.hess);
            let candidate = q.subset_candidate(bins, left);
            &&& candidate is Some <==> allowed(q, sums, left.count as int, categorical_l2(q))
            &&& candidate matches Some(s) ==> {
                &&& is_group_split(q, s)
                &&& s.cat_left_bins == Some(as_codes(bins))
                &&& s.left_sum_grad == left.grad
                &&& s.left_sum_hess == left.hess
                &&& s.gain == gain_at(q, sums, categorical_l2(q))
            }
        }),
{
    lemma_gain_of(q, left, categorical_l2(q));
    match q.subset_candidate(bins, left) {
        None => {},
        Some(s) => {
            let list = as_codes(bins);
            assert forall|i: int| 0 <= i < bins.len() implies (#[trigger] list[i]) as usize
                == bins[i] by {
                assert(takes_part(q, bins[i] as int));
            }
            assert forall|i: int, j: int| 0 <= i < j < list.len() implies list[i] != list[j] by {
                assert(bins[i] != bins[j]);
                assert(list[i] as usize == bins[i] && list[j] as usize == bins[j]);
            }
            assert forall|c: u16| list.contains(c) implies #[trigger] takes_part(q, c as int) by {
                let i = choose|i: int| 0 <= i < list.len() && list[i] == c;
                assert(takes_part(q, bins[i] as int));
                assert(list[i] as usize == bins[i]);
            }
            assert forall|c: u16| #[trigger] s.left(c) <==> list.contains(c) by {
                lemma_bitset_of(list, c);
            }
        },
    }
}

/// With few categories, one of them stands against the rest.
pub open spec fn is_single_split<W: Wide>(q: Query<W>, s: Split<W>) -> bool {
    &&& is_group_split(q, s)
    &&& s.cat_left_bins->0.len() == 1
    &&& s.left_sum_grad == q.hist[s.cat_left_bins->0[0] as int].grad
    &&& s.left_sum_hess == q.hist[s.cat_left_bins->0[0] as int].hess
}

/// With many categories, up to `max_cat_threshold` of them, but not all, are taken
/// from one end of their order.
pub open spec fn is_end_split<W: Wide>(q: Query<W>, s: Split<W>) -> bool {
    &&& is_group_split(q, s)
    &&& s.cat_left_bins->0.len() <= q.rules.max_cat_threshold
    &&& s.cat_left_bins->0.len() < participants(q, q.hist.len())
    &&& is_end(q, s.cat_left_bins->0)
    &&& s.left_sum_grad == listed_grad(q.hist, s.cat_left_bins->0)
    &&& s.left_sum_hess == listed_hess(q.hist, s.cat_left_bins->0)
}

proof fn lemma_single<W: Wide>(q: Query<W>, b: usize)
    requires
        q.hist.len() <= 0x10000,
        0 <= q.parent.count <= u32::MAX,
        takes_part(q, b as int),
    ensures
        ({
            let sums = (q.hist[b as int].grad, q.hist[b as int].hess);
            let candidate = q.subset_candidate(seq![b], q.alone(b));
            &&& candidate is Some <==> allowed(
                q,
                sums,
                q.hist[b as int].count as int,
                categorical_l2(q),
            )
            &&& candidate matches Some(s) ==> is_single_split(q, s) && s.gain == gain_at(
                q,
                sums,
                categorical_l2(q),
            )
        }),
{
    lemma_group_candidate(q, seq![b], q.alone(b));
    assert(as_codes(seq![b])[0] == b as u16);
}

proof fn lemma_alone_splits<W: Wide>(q: Query<W>, bins: Seq<usize>, n: nat)
    requires
        q.hist.len() <= 0x10000,
        0 <= q.parent.count <= u32::MAX,
        n <= bins.len(),
        forall|i: int| 0 <= i < bins.len() ==> takes_part(q, (#[trigger] bins[i]) as int),
    ensures
        q.best_alone(bins, n) matches Some(s) ==> is_single_split(q, s),
    decreases n,
{
    if n > 0 {
        lemma_alone_splits(q, bins, (n - 1) as nat);
        assert(takes_part(q, bins[n - 1] as int));
        lemma_single(q, bins[n - 1]);
    }
}

/// The order of the categories, from the low end or from the high end.
pub open spec fn scanned<W: Wide>(q: Query<W>, from_low: bool) -> Seq<usize> {
    if from_low {
        q.ranked(q.used())
    } else {
        q.ranked(q.used()).reverse()
    }
}

proof fn lemma_scanned<W: Wide>(q: Query<W>, from_low: bool)
    requires
        q.hist.len() <= 0x10000,
    ensures
        ({
            let bins = scanned(q, from_low);
            &&& bins.len() == q.used().len()
            &&& bins.len() == participants(q, q.hist.len())
            &&& bins.len() <= 0x10000
            &&& bins.no_duplicates()
            &&& forall|i: int| 0 <= i < bins.len() ==> takes_part(q, (#[trigger] bins[i]) as int)
            &&& forall|b: usize| #[trigger] takes_part(q, b as int) ==> bins.contains(b)
            &&& forall|i: int, j: int|
                #![trigger bins[i], bins[j]]
                0 <= i < j < bins.len() ==> if from_low {
                    ratio_at_most(q, bins[i] as int, bins[j] as int)
                } else {
                    ratio_at_most(q, bins[j] as int, bins[i] as int)
                }
        }),
{
    law_participants(q);
    lemma_used_bound(q);
    let used = q.used();
    let low = q.ranked(used);
    lemma_ranked(q, used);
    let m = used.len();
    assert forall|i: int, j: int| 0 <= i < j < m implies low[i] != low[j] by {
        law_ratio_order(q, i, j);
    }
    let bins = scanned(q, from_low);
    assert forall|i: int| 0 <= i < bins.len() implies takes_part(q, (#[trigger] bins[i]) as int) by {
        let k = if from_low {
            i
        } else {
            m - 1 - i
        };
        assert(bins[i] == low[k]);
        assert(used.contains(low[k]));
    }
    assert forall|b: usize| #[trigger] takes_part(q, b as int) implies bins.contains(b) by {
        assert(used.contains(b));
        let k = choose|k: int| 0 <= k < used.len() && used[k] == b;
        assert(low.contains(used[k]));
        let i = choose|i: int| 0 <= i < low.len() && low[i] == b;
        assert(bins[if from_low {
            i
        } else {
            m - 1 - i
        }] == b);
    }
    assert forall|i: int, j: int|
        #![trigger bins[i], bins[j]]
        0 <= i < j < bins.len() implies if from_low {
        ratio_at_most(q, bins[i] as int, bins[j] as int)
    } else {
        ratio_at_most(q, bins[j] as int, bins[i] as int)
    } by {
        if !from_low {
            assert(ratio_at_most(q, low[m - 1 - j] as int, low[m - 1 - i] as int));
        }
    }
}

proof fn lemma_end<W: Wide>(q: Query<W>, from_low: bool, k: int)
    requires
        q.hist.len() <= 0x10000,
        0 <= q.parent.count <= u32::MAX,
        1 <= k < q.used().len(),
        k <= q.rules.max_cat_threshold,
    ensures
        ({
            let group = scanned(q, from_low).take(k);
            let list = as_codes(group);
            let sums = (listed_grad(q.hist, list), listed_hess(q.hist, list));
            let candidate = q.subset_candidate(group, q.together(group));
            &&& candidate is Some <==> allowed(
                q,
                sums,
                listed_count(q.hist, list),
                categorical_l2(q),
            )
            &&& candidate matches Some(s) ==> is_end_split(q, s) && s.gain == gain_at(
                q,
                sums,
                categorical_l2(q),
            ) && s.cat_left_bins == Some(list)
        }),
{
    let bins = scanned(q, from_low);
    lemma_scanned(q, from_low);
    let group = bins.take(k);
    let list = as_codes(group);
    assert forall|i: int| 0 <= i < group.len() implies {
        &&& takes_part(q, (#[trigger] group[i]) as int)
        &&& group[i] < q.hist.len()
        &&& list[i] as usize == group[i]
    } by {
        assert(takes_part(q, bins[i] as int));
    }
    lemma_together(q, group);
    lemma_group_candidate(q, group, q.together(group));
    assert forall|b: u16, c: u16|
        list.contains(b) && !list.contains(c) && takes_part(q, c as int) implies if from_low {
        #[trigger] ratio_at_most(q, b as int, c as int)
    } else {
        ratio_at_most(q, c as int, b as int)
    } by {
        let i = choose|i: int| 0 <= i < list.len() && list[i] == b;
        assert(takes_part(q, (c as usize) as int));
        assert(bins.contains(c as usize));
        let j = choose|j: int| 0 <= j < bins.len() && bins[j] == c as usize;
        if j < k {
            assert(list[j] == c);
        }
        assert(group[i] == bins[i] && list[i] as usize == group[i]);
    }
    if !from_low {
        assert forall|b: u16, c: u16|
            list.contains(b) && !list.contains(c) && takes_part(
                q,
                c as int,
            ) implies #[trigger] ratio_at_most(q, c as int, b as int) by {
            assert(if from_low {
                ratio_at_most(q, b as int, c as int)
            } else {
                ratio_at_most(q, c as int, b as int)
            });
        }
    }
}

proof fn lemma_prefix_splits<W: Wide>(
    q: Query<W>,
    from_low: bool,
    n: nat,
    start: Option<Split<W>>,
)
    requires
        q.hist.len() <= 0x10000,
        0 <= q.parent.count <= u32::MAX,
        n < q.used().len(),
        n <= q.rules.max_cat_threshold,
        start matches Some(s) ==> is_end_split(q, s),
    ensures
        q.best_prefix(scanned(q, from_low), n, start) matches Some(s) ==> is_end_split(q, s),
    decreases n,
{
    if n > 0 {
        lemma_prefix_splits(q, from_low, (n - 1) as nat, start);
        lemma_end(q, from_low, n as int);
    }
}

/// The categorical split that is found sends exactly the categories that it lists
/// left. It carries their gradient and hessian sums, and what is left of the parent
/// for the other side, and gains the Newton gain of those sums under the extra
/// regularization of categorical splits. With few categories it lists one; with
/// many, it lists one end of their order by gradient ratio.
pub proof fn law_categorical_split_sums<W: Wide>(q: Query<W>)
    requires
        q.hist.len() <= 0x10000,
        0 <= q.parent.count <= u32::MAX,
    ensures
        q.best_subset() matches Some(s) ==> {
            &&& participants(q, q.hist.len()) >= 2
            &&& if participants(q, q.hist.len()) <= q.rules.max_cat_to_onehot {
                is_single_split(q, s)
            } else {
                is_end_split(q, s)
            }
        },
{
    law_participants(q);
    let used = q.used();
    if used.len() < 2 {
    } else if used.len() <= q.rules.max_cat_to_onehot {
        lemma_alone_splits(q, used, used.len());
    } else {
        let n = q.scan_limit(used.len());
        lemma_prefix_splits(q, true, n, None);
        lemma_prefix_splits(q, false, n, q.best_prefix(scanned(q, true), n, None));
    }
}

// The best of all.

proof fn lemma_alone_beats<W: Wide>(q: Query<W>, bins: Seq<usize>, n: nat)
    requires
        q.hist.len() <= 0x10000,
        0 <= q.parent.count <= u32::MAX,
        n <= bins.len(),
        forall|i: int| 0 <= i < bins.len() ==> takes_part(q, (#[trigger] bins[i]) as int),
        singles_compare(q),
    ensures
        q.best_alone(bins, n) matches Some(s) ==> s.gain.rank_of() is Some,
        forall|i: int|
            #![trigger bins[i]]
            0 <= i < n && q.subset_candidate(seq![bins[i]], q.alone(bins[i])) is Some ==> beats(
                q.best_alone(bins, n),
                q.subset_candidate(seq![bins[i]], q.alone(bins[i]))->0,
            ),
    decreases n,
{
    if n > 0 {
        lemma_alone_beats(q, bins, (n - 1) as nat);
        assert(takes_part(q, bins[n - 1] as int));
        lemma_single(q, bins[n - 1]);
    }
}

/// The gain of every single category compares.
pub open spec fn singles_compare<W: Wide>(q: Query<W>) -> bool {
    forall|b: int| #[trigger]
        takes_part(q, b) ==> gain_at(
            q,
            (q.hist[b].grad, q.hist[b].hess),
            categorical_l2(q),
        ).rank_of() is Some
}

/// With few categories, no category that the limits allow to stand against the rest
/// gains more than the split that is found. If the limits allow any, one is found.
pub proof fn law_best_single_of_all<W: Wide>(q: Query<W>, b: usize)
    requires
        q.hist.len() <= 0x10000,
        0 <= q.parent.count <= u32::MAX,
        2 <= participants(q, q.hist.len()) <= q.rules.max_cat_to_onehot,
        singles_compare(q),
        takes_part(q, b as int),
        allowed(
            q,
            (q.hist[b as int].grad, q.hist[b as int].hess),
            q.hist[b as int].count as int,
            categorical_l2(q),
        ),
    ensures
        q.best_subset() matches Some(s) && le(
            gain_at(q, (q.hist[b as int].grad, q.hist[b as int].hess), categorical_l2(q)),
            s.gain,
        ),
{
    law_participants(q);
    let used = q.used();
    assert(used.contains(b));
    let i = choose|i: int| 0 <= i < used.len() && used[i] == b;
    lemma_single(q, b);
    lemma_alone_beats(q, used, used.len());
    assert(used[i] == b);
}

/// The gain of the group of the first `k` categories from one end.
pub open spec fn end_gain<W: Wide>(q: Query<W>, from_low: bool, k: int) -> W {
    let list = as_codes(scanned(q, from_low).take(k));
    gain_at(q, (listed_grad(q.hist, list), listed_hess(q.hist, list)), categorical_l2(q))
}

/// The gains of all groups that are scanned compare.
pub open spec fn ends_compare<W: Wide>(q: Query<W>) -> bool {
    forall|from_low: bool, k: int|
        1 <= k < participants(q, q.hist.len()) && k <= q.rules.max_cat_threshold ==> (
        #[trigger] end_gain(q, from_low, k)).rank_of() is Some
}

proof fn lemma_prefix_beats<W: Wide>(
    q: Query<W>,
    from_low: bool,
    n: nat,
    start: Option<Split<W>>,
)
    requires
        q.hist.len() <= 0x10000,
        0 <= q.parent.count <= u32::MAX,
        n < q.used().len(),
        n <= q.rules.max_cat_threshold,
        start matches Some(s) ==> s.gain.rank_of() is Some,
        ends_compare(q),
    ensures
        ({
            let found = q.best_prefix(scanned(q, from_low), n, start);
            &&& found matches Some(s) ==> s.gain.rank_of() is Some
            &&& start matches Some(s) ==> beats(found, s)
            &&& forall|k: int|
                #![trigger scanned(q, from_low).take(k)]
                1 <= k <= n && q.subset_candidate(
                    scanned(q, from_low).take(k),
                    q.together(scanned(q, from_low).take(k)),
                ) is Some ==> beats(
                    found,
                    q.subset_candidate(
                        scanned(q, from_low).take(k),
                        q.together(scanned(q, from_low).take(k)),
                    )->0,
                )
        }),
    decreases n,
{
    if n > 0 {
        law_participants(q);
        lemma_prefix_beats(q, from_low, (n - 1) as nat, start);
        lemma_end(q, from_low, n as int);
        assert(end_gain(q, from_low, n as int).rank_of() is Some);
    }
}

/// With many categories, no group of up to `max_cat_threshold` of them, but not all,
/// from either end of their order by gradient ratio gains more than the split that is
/// found, if the limits allow it. If the limits allow any, one is found.
pub proof fn law_best_end_of_all<W: Wide>(q: Query<W>, from_low: bool, k: int)
    requires
        q.hist.len() <= 0x10000,
        0 <= q.parent.count <= u32::MAX,
        participants(q, q.hist.len()) >= 2,
        participants(q, q.hist.len()) > q.rules.max_cat_to_onehot,
        1 <= k < participants(q, q.hist.len()),
        k <= q.rules.max_cat_threshold,
        ends_compare(q),
        ({
            let list = as_codes(scanned(q, from_low).take(k));
            allowed(
                q,
                (listed_grad(q.hist, list), listed_hess(q.hist, list)),
                listed_count(q.hist, list),
                categorical_l2(q),
            )
        }),
    ensures
        q.best_subset() matches Some(s) && le(end_gain(q, from_low, k), s.gain),
{
    law_participants(q);
    let n = q.scan_limit(q.used().len());
    lemma_end(q, from_low, k);
    lemma_prefix_beats(q, true, n, None);
    let low = q.best_prefix(scanned(q, true), n, None);
    lemma_prefix_beats(q, false, n, low);
    let group = scanned(q, from_low).take(k);
    let candidate = q.subset_candidate(group, q.together(group));
    assert(candidate is Some);
    if from_low {
        assert(beats(low, candidate->0));
    }
}

// The first of equals.

/// The split that sends the category `b` left, if the limits allow it.
spec fn single_candidate<W: Wide>(q: Query<W>, b: usize) -> Option<Split<W>> {
    q.subset_candidate(seq![b], q.alone(b))
}

proof fn lemma_alone_first<W: Wide>(q: Query<W>, bins: Seq<usize>, n: nat)
    requires
        q.hist.len() <= 0x10000,
        0 <= q.parent.count <= u32::MAX,
        n <= bins.len(),
        forall|i: int| 0 <= i < bins.len() ==> takes_part(q, (#[trigger] bins[i]) as int),
        singles_compare(q),
    ensures
        q.best_alone(bins, n) matches Some(s) ==> exists|k: int|
            {
                &&& 0 <= k < n
                &&& Some(s) == single_candidate(q, #[trigger] bins[k])
                &&& forall|i: int|
                    0 <= i < k && single_candidate(q, #[trigger] bins[i]) is Some ==> lt(
                        single_candidate(q, bins[i])->0.gain,
                        s.gain,
                    )
            },
    decreases n,
{
    if n > 0 {
        lemma_alone_first(q, bins, (n - 1) as nat);
        lemma_alone_beats(q, bins, (n - 1) as nat);
        assert(takes_part(q, bins[n - 1] as int));
        lemma_single(q, bins[n - 1]);
        let before = q.best_alone(bins, (n - 1) as nat);
        let found = q.best_alone(bins, n);
        if found is Some && found != before {
            let s = found->0;
            assert(Some(s) == single_candidate(q, bins[n - 1]));
            assert forall|i: int|
                0 <= i < n - 1 && single_candidate(q, #[trigger] bins[i]) is Some implies lt(
                single_candidate(q, bins[i])->0.gain,
                s.gain,
            ) by {
                assert(beats(before, single_candidate(q, bins[i])->0));
            }
        }
    }
}

/// Among single categories of the same gain the one with the smallest code is found.
pub proof fn law_first_single_of_equals<W: Wide>(q: Query<W>, b: usize)
    requires
        q.hist.len() <= 0x10000,
        0 <= q.parent.count <= u32::MAX,
        2 <= participants(q, q.hist.len()) <= q.rules.max_cat_to_onehot,
        singles_compare(q),
        takes_part(q, b as int),
        allowed(
            q,
            (q.hist[b as int].grad, q.hist[b as int].hess),
            q.hist[b as int].count as int,
            categorical_l2(q),
        ),
    ensures
        q.best_subset() matches Some(s) && s.cat_left_bins matches Some(list) && (b < list[0] ==> lt(
            gain_at(q, (q.hist[b as int].grad, q.hist[b as int].hess), categorical_l2(q)),
            s.gain,
        )),
{
    law_participants(q);
    law_best_single_of_all(q, b);
    let used = q.used();
    assert(used.contains(b));
    let i = choose|i: int| 0 <= i < used.len() && used[i] == b;
    lemma_single(q, b);
    lemma_alone_first(q, used, used.len());
    let s = q.best_subset()->0;
    let k = choose|k: int|
        {
            &&& 0 <= k < used.len()
            &&& Some(s) == single_candidate(q, #[trigger] used[k])
            &&& forall|i: int|
                0 <= i < k && single_candidate(q, #[trigger] used[i]) is Some ==> lt(
                    single_candidate(q, used[i])->0.gain,
                    s.gain,
                )
        };
    assert(used.contains(used[k]));
    assert(s.cat_left_bins == Some(as_codes(seq![used[k]])));
    assert(as_codes(seq![used[k]])[0] == used[k] as u16);
    if k < i {
        assert(used[k] < used[i]);
    }
    assert(single_candidate(q, used[i]) is Some);
}

/// The split that sends the first `k` categories from one end left, if the limits
/// allow it.
spec fn end_candidate<W: Wide>(q: Query<W>, from_low: bool, k: int) -> Option<Split<W>> {
    let group = scanned(q, from_low).take(k);
    q.subset_candidate(group, q.together(group))
}

/// `s` is the first of the groups from one end that gains what it gains.
spec fn first_end<W: Wide>(q: Query<W>, from_low: bool, k: int, n: int, s: Split<W>) -> bool {
    &&& 1 <= k <= n
    &&& Some(s) == end_candidate(q, from_low, k)
    &&& forall|j: int|
        1 <= j < k && (#[trigger] end_candidate(q, from_low, j)) is Some ==> lt(
            end_candidate(q, from_low, j)->0.gain,
            s.gain,
        )
}

proof fn lemma_prefix_first<W: Wide>(
    q: Query<W>,
    from_low: bool,
    n: nat,
    start: Option<Split<W>>,
)
    requires
        q.hist.len() <= 0x10000,
        0 <= q.parent.count <= u32::MAX,
        n < q.used().len(),
        n <= q.rules.max_cat_threshold,
        start matches Some(s) ==> s.gain.rank_of() is Some,
        ends_compare(q),
    ensures
        ({
            let found = q.best_prefix(scanned(q, from_low), n, start);
            found matches Some(s) ==> start == Some(s) || {
                &&& start matches Some(b) ==> lt(b.gain, s.gain)
                &&& exists|k: int| #[trigger] first_end(q, from_low, k, n as int, s)
            }
        }),
    decreases n,
{
    if n > 0 {
        law_participants(q);
        lemma_prefix_first(q, from_low, (n - 1) as nat, start);
        lemma_prefix_beats(q, from_low, (n - 1) as nat, start);
        lemma_end(q, from_low, n as int);
        assert(end_gain(q, from_low, n as int).rank_of() is Some);
        let before = q.best_prefix(scanned(q, from_low), (n - 1) as nat, start);
        let found = q.best_prefix(scanned(q, from_low), n, start);
        if found is Some && found == before && start != found {
            let s = found->0;
            let k = choose|k: int| #[trigger] first_end(q, from_low, k, n - 1, s);
            assert(first_end(q, from_low, k, n as int, s));
        }
        if found is Some && found != before {
            let s = found->0;
            assert forall|j: int|
                1 <= j < n && (#[trigger] end_candidate(q, from_low, j)) is Some implies lt(
                end_candidate(q, from_low, j)->0.gain,
                s.gain,
            ) by {
                let group = scanned(q, from_low).take(j);
                assert(q.subset_candidate(group, q.together(group)) is Some);
                assert(beats(before, end_candidate(q, from_low, j)->0));
            }
            assert(first_end(q, from_low, n as int, n as int, s));
        }
    }
}

/// Among groups of the same gain the first one is found, in this order: groups from
/// the low end by ascending size, then groups from the high end by ascending size.
pub proof fn law_first_end_of_equals<W: Wide>(q: Query<W>, from_low: bool, k: int)
    requires
        q.hist.len() <= 0x10000,
        0 <= q.parent.count <= u32::MAX,
        participants(q, q.hist.len()) >= 2,
        participants(q, q.hist.len()) > q.rules.max_cat_to_onehot,
        1 <= k < participants(q, q.hist.len()),
        k <= q.rules.max_cat_threshold,
        ends_compare(q),
        ({
            let list = as_codes(scanned(q, from_low).take(k));
            allowed(
                q,
                (listed_grad(q.hist, list), listed_hess(q.hist, list)),
                listed_count(q.hist, list),
                categorical_l2(q),
            )
        }),
    ensures
        q.best_subset() matches Some(s) && s.cat_left_bins matches Some(list) && {
            let low = list == as_codes(scanned(q, true).take(list.len() as int));
            &&& from_low && !low ==> lt(end_gain(q, from_low, k), s.gain)
            &&& from_low == low && k < list.len() ==> lt(end_gain(q, from_low, k), s.gain)
        },
{
    law_best_end_of_all(q, from_low, k);
    law_participants(q);
    let n = q.scan_limit(q.used().len());
    lemma_scanned(q, true);
    lemma_scanned(q, false);
    lemma_end(q, from_low, k);
    lemma_prefix_beats(q, true, n, None);
    lemma_prefix_first(q, true, n, None);
    let from_start = q.best_prefix(scanned(q, true), n, None);
    lemma_prefix_first(q, false, n, from_start);
    let s = q.best_subset()->0;
    let candidate = end_candidate(q, from_low, k);
    let group = scanned(q, from_low).take(k);
    assert(q.subset_candidate(group, q.together(group)) is Some);
    if from_low {
        assert(beats(from_start, candidate->0));
    }
    if from_start == Some(s) {
        let j = choose|j: int| #[trigger] first_end(q, true, j, n as int, s);
        assert(first_end(q, true, j, n as int, s));
        lemma_end(q, true, j);
        assert(as_codes(scanned(q, true).take(j)).len() == j);
    } else {
        let j = choose|j: int| #[trigger] first_end(q, false, j, n as int, s);
        assert(first_end(q, false, j, n as int, s));
        lemma_end(q, false, j);
        assert(as_codes(scanned(q, false).take(j)).len() == j);
    }
}

} // verus!
