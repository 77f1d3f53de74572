//! The feature importance report.

use vstd::prelude::*;
use vstd::string::StringExecFns;
use vstd::utf8::encode_utf8;

use crate::feature::FeatureBuilder;
use crate::number::{constant, less, lt, total, whole, Wide};
use crate::order::{by_key, descending_key, lemma_order_of, order_by_key, order_of, rank_descending};
use crate::text::{
    align_left, align_right, decimal, decimal_of, left_aligned, right_aligned, rounded_text,
    show_rounded,
};

verus! {

/// The sum of all split counts.
pub open spec fn split_total(splits: Seq<u32>) -> nat
    decreases splits.len(),
{
    if splits.len() == 0 {
        0
    } else {
        split_total(splits.drop_last()) + splits.last() as nat
    }
}

/// The split count of a feature; none is counted past the end of the list.
pub open spec fn splits_at(splits: Seq<u32>, i: int) -> u32 {
    if i < splits.len() {
        splits[i]
    } else {
        0
    }
}

/// The gain of a feature; none past the end of the list.
pub open spec fn gain_at<W: Wide>(gains: Seq<W>, i: int) -> W {
    if i < gains.len() {
        gains[i]
    } else {
        whole(0)
    }
}

/// The width of the name column: that of the longest name in bytes, but no less
/// than that of its heading.
pub open spec fn name_width(names: Seq<Seq<char>>) -> usize
    decreases names.len(),
{
    if names.len() == 0 {
        7
    } else {
        let before = name_width(names.drop_last());
        let here = encode_utf8(names.last()).len() as usize;
        if here > before {
            here
        } else {
            before
        }
    }
}

/// `part` of `all` splits, in percent.
pub open spec fn split_share<W: Wide>(part: u32, all: nat) -> W {
    if all > 0 {
        whole::<W>(100).product_of(whole(part as u64)).quotient_of(whole(all as u64))
    } else {
        whole(0)
    }
}

/// `part` of the gain `all`, in percent.
pub open spec fn gain_share<W: Wide>(part: W, all: W) -> W {
    if lt(whole(0), all) {
        whole::<W>(100).product_of(part).quotient_of(all)
    } else {
        whole(0)
    }
}

/// The features by descending gain, equal gains in declaration order.
pub open spec fn gain_order<W: Wide>(gains: Seq<W>, n: nat) -> Seq<usize> {
    order_of(gain_keys(gains, n))
}

pub open spec fn gain_keys<W: Wide>(gains: Seq<W>, n: nat) -> Seq<u64> {
    Seq::new(n, |i: int| descending_key(gain_at(gains, i).rank_of()))
}

pub open spec fn heading(width: usize) -> Seq<char> {
    left_aligned("idx"@, 4) + "  "@ + left_aligned("feature"@, width as nat) + "  "@
        + right_aligned("splits"@, 7) + "  "@ + right_aligned("gain"@, 9) + "  "@ + right_aligned(
        "split%"@,
        6,
    ) + "  "@ + right_aligned("gain%"@, 6) + "\n"@
}

/// One line of the report.
pub open spec fn importance_line<W: Wide>(
    names: Seq<Seq<char>>,
    splits: Seq<u32>,
    gains: Seq<W>,
    i: int,
) -> Seq<char> {
    let sp = splits_at(splits, i);
    let g = gain_at(gains, i);
    left_aligned(decimal_of(i as nat), 4) + "  "@ + left_aligned(
        names[i],
        name_width(names) as nat,
    ) + "  "@ + right_aligned(decimal_of(sp as nat), 7) + "  "@ + right_aligned(
        rounded_text(g.rounded_of(3)),
        9,
    )
        + "  "@ + right_aligned(
        rounded_text(split_share::<W>(sp, split_total(splits)).rounded_of(1)),
        5,
    ) + "%  "@
        + right_aligned(
        rounded_text(gain_share(g, total(gains)).rounded_of(1)),
        5,
    ) + "%\n"@
}

/// The first `n` lines of the report, after its heading.
pub open spec fn importance_report<W: Wide>(
    names: Seq<Seq<char>>,
    splits: Seq<u32>,
    gains: Seq<W>,
    n: nat,
) -> Seq<char>
    decreases n,
{
    if n == 0 {
        heading(name_width(names))
    } else {
        importance_report(names, splits, gains, (n - 1) as nat) + importance_line(
            names,
            splits,
            gains,
            gain_order(gains, names.len())[n - 1] as int,
        )
    }
}

fn sum_splits(splits: &[u32]) -> (r: u32)
    requires
        split_total(splits@) <= u32::MAX,
    ensures
        r == split_total(splits@),
{
    let mut sum: u32 = 0;
    let mut i: usize = 0;
    assert(splits@.take(0) =~= Seq::empty());
    while i < splits.len()
        invariant
            i <= splits@.len(),
            split_total(splits@) <= u32::MAX,
            sum == split_total(splits@.take(i as int)),
        decreases splits@.len() - i,
    {
        proof {
            assert(splits@.take(i + 1).drop_last() =~= splits@.take(i as int));
            lemma_split_total_grows(splits@, (i + 1) as nat);
        }
        sum = sum + splits[i];
        i = i + 1;
    }
    assert(splits@.take(i as int) =~= splits@);
    sum
}

proof fn lemma_split_total_grows(splits: Seq<u32>, n: nat)
    requires
        n <= splits.len(),
    ensures
        split_total(splits.take(n as int)) <= split_total(splits),
    decreases splits.len(),
{
    if n == splits.len() {
        assert(splits.take(n as int) =~= splits);
    } else {
        assert(splits.drop_last().take(n as int) =~= splits.take(n as int));
        lemma_split_total_grows(splits.drop_last(), n);
    }
}

fn sum_gains<W: Wide>(gains: &[W]) -> (r: W)
    ensures
        r == total(gains@),
{
    let mut sum: W = constant(0);
    let mut i: usize = 0;
    assert(gains@.take(0) =~= Seq::empty());
    while i < gains.len()
        invariant
            i <= gains@.len(),
            sum == total(gains@.take(i as int)),
        decreases gains@.len() - i,
    {
        assert(gains@.take(i + 1).drop_last() =~= gains@.take(i as int));
        sum = sum.plus(gains[i]);
        i = i + 1;
    }
    assert(gains@.take(i as int) =~= gains@);
    sum
}

fn gain_of<W: Wide>(gains: &[W], i: usize) -> (r: W)
    ensures
        r == gain_at(gains@, i as int),
{
    if i < gains.len() {
        gains[i]
    } else {
        constant(0)
    }
}

fn splits_of(splits: &[u32], i: usize) -> (r: u32)
    ensures
        r == splits_at(splits@, i as int),
{
    if i < splits.len() {
        splits[i]
    } else {
        0
    }
}

fn order_by_gain<W: Wide>(gains: &[W], n: usize) -> (r: Vec<usize>)
    ensures
        r@ == gain_order(gains@, n as nat),
{
    let mut keys: Vec<u64> = Vec::with_capacity(n);
    let mut i: usize = 0;
    while i < n
        invariant
            i <= n,
            keys@ =~= gain_keys(gains@, i as nat),
        decreases n - i,
    {
        keys.push(rank_descending(gain_of(gains, i).rank()));
        i = i + 1;
    }
    order_by_key(keys.as_slice())
}

fn write_heading(width: usize) -> (r: String)
    ensures
        r@ == heading(width),
{
    align_left("idx", 4).concat("  ").concat(align_left("feature", width).as_str()).concat(
        "  ",
    ).concat(align_right("splits", 7).as_str()).concat("  ").concat(
        align_right("gain", 9).as_str(),
    ).concat("  ").concat(align_right("split%", 6).as_str()).concat("  ").concat(
        align_right("gain%", 6).as_str(),
    ).concat("\n")
}

impl<X> FeatureBuilder<X> {
    /// The width of the name column.
    fn widest_name(&self) -> (r: usize)
        ensures
            r == name_width(self.declared()),
    {
        let mut width: usize = 7;
        let mut f: usize = 0;
        assert(self.declared().take(0) =~= Seq::empty());
        while f < self.features.len()
            invariant
                f <= self.features@.len(),
                width == name_width(self.declared().take(f as int)),
            decreases self.features@.len() - f,
        {
            assert(self.declared().take(f + 1).drop_last() =~= self.declared().take(f as int));
            let here: usize = self.features[f].name.as_str().len();
            if here > width {
                width = here;
            }
            f = f + 1;
        }
        assert(self.declared().take(f as int) =~= self.declared());
        width
    }

    /// Format a per-feature importance report as a table, rows sorted by gain
    /// descending. `splits` and `gains` are usually the model's split counts and
    /// gains by feature.
    pub fn format_importance<W: Wide>(&self, splits: &[u32], gains: &[W]) -> (r: String)
        requires
            split_total(splits@) <= u32::MAX,
        ensures
            r@ == importance_report(self.declared(), splits@, gains@, self.features@.len()),
    {
        let total_gain: W = sum_gains(gains);
        let total_splits: u32 = sum_splits(splits);
        let width: usize = self.widest_name();
        let n: usize = self.features.len();
        let order: Vec<usize> = order_by_gain(gains, n);
        proof {
            lemma_order_of(gain_keys(gains@, n as nat));
        }
        let mut out: String = write_heading(width);
        let mut k: usize = 0;
        while k < n
            invariant
                k <= n == self.features@.len(),
                total_gain == total(gains@),
                total_splits == split_total(splits@),
                width == name_width(self.declared()),
                order@ == gain_order(gains@, n as nat),
                order@.len() == n,
                forall|i: int| 0 <= i < order@.len() ==> (#[trigger] order@[i]) < n,
                out@ == importance_report(self.declared(), splits@, gains@, k as nat),
            decreases n - k,
        {
            assert(order@[k as int] < n);
            let i: usize = order[k];
            let sp: u32 = splits_of(splits, i);
            let g: W = gain_of(gains, i);
            let sp_pct: W = if total_splits > 0 {
                constant::<W>(100).times(constant(sp as u64)).over(constant(total_splits as u64))
            } else {
                constant(0)
            };
            let g_pct: W = if less(constant(0), total_gain) {
                constant::<W>(100).times(g).over(total_gain)
            } else {
                constant(0)
            };
            let gain_text: String = show_rounded(&g.rounded(3));
            let split_text: String = show_rounded(&sp_pct.rounded(1));
            let share_text: String = show_rounded(&g_pct.rounded(1));
            let line: String = align_left(decimal(i as u128).as_str(), 4).concat("  ").concat(
                align_left(self.features[i].name.as_str(), width).as_str(),
            ).concat("  ").concat(align_right(decimal(sp as u128).as_str(), 7).as_str()).concat(
                "  ",
            ).concat(align_right(gain_text.as_str(), 9).as_str()).concat("  ").concat(
                align_right(split_text.as_str(), 5).as_str(),
            ).concat("%  ").concat(align_right(share_text.as_str(), 5).as_str()).concat("%\n");
            assert(line@ == importance_line(self.declared(), splits@, gains@, i as int));
            out.append(line.as_str());
            k = k + 1;
        }
        out
    }
}

/// The report lists the features by descending gain.
pub proof fn law_report_by_gain<W: Wide>(gains: Seq<W>, n: nat, i: int, j: int)
    requires
        n <= usize::MAX,
        0 <= i <= j < n,
    ensures
        ({
            let order = gain_order(gains, n);
            &&& order.len() == n
            &&& order[i] < n && order[j] < n
            &&& !lt(gain_at(gains, order[i] as int), gain_at(gains, order[j] as int))
        }),
{
    let keys = gain_keys(gains, n);
    lemma_order_of(keys);
    let order = gain_order(gains, n);
    assert(order[i] < n && order[j] < n);
    if i < j {
        assert(by_key(keys)(order[i], order[j]));
    }
}

/// A share is the part in percent of the whole, and zero where there is nothing to
/// share; a feature with all splits has all of the share.
pub proof fn law_shares<W: Wide>(part: u32, all: nat, gain: W, sum: W)
    ensures
        ({
            let hundred = W::ratio_of(100, 1);
            let zero = W::ratio_of(0, 1);
            &&& all > 0 ==> split_share::<W>(part, all) == hundred.product_of(
                W::ratio_of(part as u64, 1),
            ).quotient_of(W::ratio_of(all as u64, 1))
            &&& all == 0 ==> split_share::<W>(part, all) == zero
            &&& lt(zero, sum) ==> gain_share(gain, sum) == hundred.product_of(gain).quotient_of(sum)
            &&& !lt(zero, sum) ==> gain_share(gain, sum) == zero
        }),
{
}

/// The name column is wide enough for every name and for its heading, and no wider.
pub proof fn law_name_width(names: Seq<Seq<char>>)
    requires
        forall|i: int|
            0 <= i < names.len() ==> encode_utf8(#[trigger] names[i]).len() <= usize::MAX,
    ensures
        name_width(names) >= 7,
        forall|i: int|
            0 <= i < names.len() ==> encode_utf8(#[trigger] names[i]).len() <= name_width(names),
        name_width(names) == 7 || exists|i: int|
            0 <= i < names.len() && encode_utf8(#[trigger] names[i]).len() == name_width(names),
    decreases names.len(),
{
    if names.len() > 0 {
        let before = names.drop_last();
        assert forall|i: int| 0 <= i < before.len() implies encode_utf8(#[trigger] before[i]).len()
            <= usize::MAX by {
            assert(names[i] == before[i]);
        }
        law_name_width(before);
        let last = names.len() - 1;
        assert(encode_utf8(names[last]).len() <= usize::MAX);
        assert forall|i: int| 0 <= i < names.len() implies encode_utf8(#[trigger] names[i]).len()
            <= name_width(names) by {
            if i < before.len() {
                assert(names[i] == before[i]);
            }
        }
        if name_width(before) != 7 {
            let i = choose|i: int|
                0 <= i < before.len() && encode_utf8(#[trigger] before[i]).len() == name_width(
                    before,
                );
            assert(names[i] == before[i]);
        }
    }
}

} // verus!
