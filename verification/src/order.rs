//! Ordering the positions of a list by integer keys.

use vstd::prelude::*;
use vstd::relations::{sorted_by, total_ordering};
use vstd::seq_lib::{lemma_multiset_commutative, lemma_sorted_unique};

verus! {

/// Position `i` comes no later than position `j`: by key, and among equal keys
/// by position.
pub open spec fn by_key(keys: Seq<u64>) -> spec_fn(usize, usize) -> bool {
    |i: usize, j: usize|
        keys[i as int] < keys[j as int] || (keys[i as int] == keys[j as int] && i <= j)
}

/// The positions `lo..hi` in ascending order.
pub open spec fn positions(lo: int, hi: int) -> Seq<usize> {
    Seq::new((hi - lo) as nat, |i: int| (lo + i) as usize)
}

/// The positions of `keys` in the order of their keys, equal keys in the order
/// in which they stand.
pub open spec fn order_of(keys: Seq<u64>) -> Seq<usize> {
    positions(0, keys.len() as int).sort_by(by_key(keys))
}

/// The order by key is a total order on positions.
pub proof fn lemma_by_key_total(keys: Seq<u64>)
    ensures
        total_ordering(by_key(keys)),
{
}

/// `order_of` lists every position once, and its keys ascend; positions with
/// equal keys keep their order.
pub proof fn lemma_order_of(keys: Seq<u64>)
    requires
        keys.len() <= usize::MAX,
    ensures
        order_of(keys).len() == keys.len(),
        sorted_by(order_of(keys), by_key(keys)),
        order_of(keys).to_multiset() == positions(0, keys.len() as int).to_multiset(),
        order_of(keys).no_duplicates(),
        forall|i: int| 0 <= i < keys.len() ==> (#[trigger] order_of(keys)[i]) < keys.len(),
        forall|p: usize| p < keys.len() ==> order_of(keys).contains(p),
{
    broadcast use vstd::seq_lib::group_to_multiset_ensures;

    let all = positions(0, keys.len() as int);
    let ordered = order_of(keys);
    lemma_by_key_total(keys);
    all.lemma_sort_by_ensures(by_key(keys));
    assert(ordered.len() == ordered.to_multiset().len());
    assert(all.no_duplicates());
    all.lemma_multiset_has_no_duplicates();
    assert forall|x: usize| ordered.to_multiset().contains(x) implies ordered.to_multiset().count(x)
        == 1 by {
        assert(all.to_multiset().contains(x));
    }
    ordered.lemma_multiset_has_no_duplicates_conv();
    assert forall|i: int| 0 <= i < keys.len() implies (#[trigger] ordered[i]) < keys.len() by {
        assert(ordered.contains(ordered[i]));
        assert(all.contains(ordered[i]));
    }
    assert forall|p: usize| p < keys.len() implies ordered.contains(p) by {
        assert(all[p as int] == p);
        assert(all.contains(p));
        assert(ordered.to_multiset().count(p) > 0);
    }
}

proof fn lemma_push_left(left: Seq<usize>, right: Seq<usize>, x: usize)
    ensures
        (left.push(x) + right).to_multiset() =~= (left + right).push(x).to_multiset(),
{
    broadcast use vstd::seq_lib::group_to_multiset_ensures;

    lemma_multiset_commutative(left, right);
    lemma_multiset_commutative(left.push(x), right);
    assert(left.push(x).to_multiset() =~= left.to_multiset().insert(x));
    assert((left + right).push(x).to_multiset() =~= (left + right).to_multiset().insert(x));
    assert(left.to_multiset().insert(x).add(right.to_multiset()) =~= left.to_multiset().add(
        right.to_multiset(),
    ).insert(x));
}

proof fn lemma_push_same(s: Seq<usize>, t: Seq<usize>, x: usize)
    requires
        s.to_multiset() == t.to_multiset(),
    ensures
        s.push(x).to_multiset() == t.push(x).to_multiset(),
{
    broadcast use vstd::seq_lib::group_to_multiset_ensures;

    assert(s.push(x).to_multiset() =~= s.to_multiset().insert(x));
    assert(t.push(x).to_multiset() =~= t.to_multiset().insert(x));
}

fn merge(keys: &[u64], left: &Vec<usize>, right: &Vec<usize>) -> (out: Vec<usize>)
    requires
        left@.len() + right@.len() <= usize::MAX,
        forall|i: int| 0 <= i < left@.len() ==> (#[trigger] left@[i]) < keys@.len(),
        forall|i: int| 0 <= i < right@.len() ==> (#[trigger] right@[i]) < keys@.len(),
        sorted_by(left@, by_key(keys@)),
        sorted_by(right@, by_key(keys@)),
    ensures
        sorted_by(out@, by_key(keys@)),
        out@.to_multiset() == (left@ + right@).to_multiset(),
        forall|i: int| 0 <= i < out@.len() ==> (#[trigger] out@[i]) < keys@.len(),
{
    broadcast use vstd::seq_lib::group_to_multiset_ensures;

    let mut out: Vec<usize> = Vec::with_capacity(left.len() + right.len());
    let mut a: usize = 0;
    let mut b: usize = 0;
    let ghost leq = by_key(keys@);
    proof {
        lemma_by_key_total(keys@);
        assert(left@.take(0) + right@.take(0) =~= Seq::<usize>::empty());
    }
    while a < left.len() || b < right.len()
        invariant
            a <= left@.len(),
            b <= right@.len(),
            left@.len() + right@.len() <= usize::MAX,
            leq == by_key(keys@),
            total_ordering(leq),
            forall|i: int| 0 <= i < left@.len() ==> (#[trigger] left@[i]) < keys@.len(),
            forall|i: int| 0 <= i < right@.len() ==> (#[trigger] right@[i]) < keys@.len(),
            sorted_by(left@, leq),
            sorted_by(right@, leq),
            sorted_by(out@, leq),
            out@.to_multiset() == (left@.take(a as int) + right@.take(b as int)).to_multiset(),
            forall|i: int| 0 <= i < out@.len() ==> (#[trigger] out@[i]) < keys@.len(),
            forall|i: int, j: int|
                #![trigger out@[i], left@[j]]
                0 <= i < out@.len() && a <= j < left@.len() ==> leq(out@[i], left@[j]),
            forall|i: int, j: int|
                #![trigger out@[i], right@[j]]
                0 <= i < out@.len() && b <= j < right@.len() ==> leq(out@[i], right@[j]),
        decreases left@.len() - a + right@.len() - b,
    {
        let from_left: bool = if a == left.len() {
            false
        } else if b == right.len() {
            true
        } else {
            let x: usize = left[a];
            let y: usize = right[b];
            keys[x] < keys[y] || (keys[x] == keys[y] && x <= y)
        };
        let ghost before = left@.take(a as int) + right@.take(b as int);
        if from_left {
            let x: usize = left[a];
            proof {
                assert forall|j: int| a <= j < left@.len() implies leq(x, #[trigger] left@[j]) by {
                    assert(leq(x, x));
                    if j > a {
                        assert(leq(left@[a as int], left@[j]));
                    }
                }
                assert forall|j: int| b <= j < right@.len() implies leq(
                    x,
                    #[trigger] right@[j],
                ) by {
                    assert(leq(x, right@[b as int]));
                    if j > b {
                        assert(leq(right@[b as int], right@[j]));
                    }
                }
                assert(left@.take(a + 1) =~= left@.take(a as int).push(x));
                lemma_push_left(left@.take(a as int), right@.take(b as int), x);
                lemma_push_same(out@, before, x);
            }
            out.push(x);
            a = a + 1;
        } else {
            let y: usize = right[b];
            proof {
                assert forall|j: int| b <= j < right@.len() implies leq(
                    y,
                    #[trigger] right@[j],
                ) by {
                    assert(leq(y, y));
                    if j > b {
                        assert(leq(right@[b as int], right@[j]));
                    }
                }
                assert forall|j: int| a <= j < left@.len() implies leq(y, #[trigger] left@[j]) by {
                    assert(leq(y, left@[a as int]));
                    if j > a {
                        assert(leq(left@[a as int], left@[j]));
                    }
                }
                assert(left@.take(a as int) + right@.take(b + 1) =~= before.push(y));
                lemma_push_same(out@, before, y);
            }
            out.push(y);
            b = b + 1;
        }
    }
    proof {
        assert(left@.take(a as int) =~= left@);
        assert(right@.take(b as int) =~= right@);
    }
    out
}

fn sort_range(keys: &[u64], lo: usize, hi: usize) -> (out: Vec<usize>)
    requires
        lo <= hi <= keys@.len(),
    ensures
        sorted_by(out@, by_key(keys@)),
        out@.to_multiset() == positions(lo as int, hi as int).to_multiset(),
        forall|i: int| 0 <= i < out@.len() ==> (#[trigger] out@[i]) < keys@.len(),
    decreases hi - lo,
{
    broadcast use vstd::seq_lib::group_to_multiset_ensures;

    let mut out: Vec<usize> = Vec::new();
    if hi - lo == 0 {
        proof {
            assert(out@ =~= positions(lo as int, hi as int));
        }
        return out;
    }
    if hi - lo == 1 {
        out.push(lo);
        proof {
            assert(out@ =~= positions(lo as int, hi as int));
        }
        return out;
    }
    let mid: usize = lo + (hi - lo) / 2;
    let left = sort_range(keys, lo, mid);
    let right = sort_range(keys, mid, hi);
    proof {
        let l = positions(lo as int, mid as int);
        let r = positions(mid as int, hi as int);
        assert(left@.len() == left@.to_multiset().len() == l.len());
        assert(right@.len() == right@.to_multiset().len() == r.len());
        assert(l + r =~= positions(lo as int, hi as int));
        lemma_multiset_commutative(l, r);
        lemma_multiset_commutative(left@, right@);
    }
    merge(keys, &left, &right)
}

/// Stable ordering: the positions of `keys`, smallest key first.
pub fn order_by_key(keys: &[u64]) -> (out: Vec<usize>)
    ensures
        out@ == order_of(keys@),
{
    let out = sort_range(keys, 0, keys.len());
    proof {
        lemma_by_key_total(keys@);
        lemma_order_of(keys@);
        lemma_sorted_unique(out@, order_of(keys@), by_key(keys@));
    }
    out
}

/// Keys whose ascending order is the order of the ranks; a number without a
/// rank goes first.
pub open spec fn ascending_key(rank: Option<i64>) -> u64 {
    match rank {
        Some(r) => (r + 0x8000_0000_0000_0000) as u64,
        None => 0,
    }
}

/// Keys whose ascending order is the descending order of the ranks; a number
/// without a rank goes last.
pub open spec fn descending_key(rank: Option<i64>) -> u64 {
    (u64::MAX - ascending_key(rank)) as u64
}

pub fn rank_ascending(rank: Option<i64>) -> (key: u64)
    ensures
        key == ascending_key(rank),
{
    match rank {
        Some(r) => (r as i128 + 0x8000_0000_0000_0000) as u64,
        None => 0,
    }
}

pub fn rank_descending(rank: Option<i64>) -> (key: u64)
    ensures
        key == descending_key(rank),
{
    u64::MAX - rank_ascending(rank)
}

} // verus!
