//! Sorting by merging: keys into Morton order, points into their order.

use vstd::prelude::*;
use vstd::seq_lib::{lemma_multiset_commutative, to_multiset_build};
use crate::morton::MortonKey;
use crate::linear::{all_wf, is_sorted};

verus! {

/// The order of pairs: by the first number, and by the second where the first are equal.
pub open spec fn pair_le(a: (u64, u64), b: (u64, u64)) -> bool {
    a.0 < b.0 || (a.0 == b.0 && a.1 <= b.1)
}

/// What can be sorted: items that have a pair of numbers to sort by.
pub trait SortKey: Copy {
    /// The pair of numbers that the item is sorted by.
    spec fn sort_key(&self) -> (u64, u64);

    /// Whether the item may stand before the other.
    fn before(&self, other: &Self) -> (r: bool)
        ensures
            r == pair_le(self.sort_key(), other.sort_key()),
    ;
}

impl SortKey for MortonKey {
    open spec fn sort_key(&self) -> (u64, u64) {
        (self.morton, 0)
    }

    fn before(&self, other: &Self) -> (r: bool) {
        self.morton <= other.morton
    }
}

/// The items stand in the order of their pairs.
pub open spec fn sorted_by_key<T: SortKey>(s: Seq<T>) -> bool {
    forall|i: int, j: int| 0 <= i < j < s.len() ==> pair_le(s[i].sort_key(), s[j].sort_key())
}

/// Every item of `s` may stand before `x`.
pub open spec fn all_before<T: SortKey>(s: Seq<T>, x: T) -> bool {
    forall|i: int| 0 <= i < s.len() ==> pair_le((#[trigger] s[i]).sort_key(), x.sort_key())
}

/// A sorted sequence stays sorted with an item after it that all of it may stand before.
proof fn lemma_sorted_push<T: SortKey>(s: Seq<T>, x: T)
    requires
        sorted_by_key(s),
        all_before(s, x),
    ensures
        sorted_by_key(s.push(x)),
{
    let t: Seq<T> = s.push(x);
    assert forall|i: int, j: int| 0 <= i < j < t.len() implies pair_le(
        t[i].sort_key(),
        t[j].sort_key(),
    ) by {
        assert(t[i] == s[i]);
        if j < s.len() {
            assert(t[j] == s[j]);
        }
    }
}

/// The items of two sorted vectors as one sorted vector; where items of both
/// have equal pairs, those of the first come first.
fn merge<T: SortKey>(a: &Vec<T>, b: &Vec<T>) -> (r: Vec<T>)
    requires
        sorted_by_key(a@),
        sorted_by_key(b@),
        a@.len() + b@.len() <= usize::MAX,
    ensures
        sorted_by_key(r@),
        r@.to_multiset() == a@.to_multiset().add(b@.to_multiset()),
        r@.len() == a@.len() + b@.len(),
{
    let mut out: Vec<T> = Vec::new();
    let mut i: usize = 0;
    let mut j: usize = 0;
    proof {
        let none: Seq<T> = Seq::<T>::empty();
        assert(a@.take(0) =~= none);
        assert(b@.take(0) =~= none);
        assert(out@ =~= none);
        none.to_multiset_ensures();
        assert forall|x: T| none.to_multiset().count(x) == 0 by {
            assert(!none.contains(x));
        }
        assert(none.to_multiset() =~= none.to_multiset().add(none.to_multiset()));
    }
    while i < a.len() || j < b.len()
        invariant
            i <= a@.len(),
            j <= b@.len(),
            a@.len() + b@.len() <= usize::MAX,
            sorted_by_key(a@),
            sorted_by_key(b@),
            out@.len() == i + j,
            sorted_by_key(out@),
            out@.to_multiset() == a@.take(i as int).to_multiset().add(
                b@.take(j as int).to_multiset(),
            ),
            i < a@.len() ==> all_before(out@, a@[i as int]),
            j < b@.len() ==> all_before(out@, b@[j as int]),
        decreases a@.len() - i + b@.len() - j,
    {
        let ghost before: Seq<T> = out@;
        let from_first: bool = if i < a.len() && j < b.len() {
            a[i].before(&b[j])
        } else {
            i < a.len()
        };
        if from_first {
            let x: T = a[i];
            proof {
                lemma_sorted_push(before, x);
                to_multiset_build(before, x);
                to_multiset_build(a@.take(i as int), x);
                assert(a@.take(i + 1) =~= a@.take(i as int).push(x));
                assert(before.push(x).to_multiset() =~= a@.take(i + 1).to_multiset().add(
                    b@.take(j as int).to_multiset(),
                ));
            }
            out.push(x);
            proof {
                if i + 1 < a@.len() {
                    let y: T = a@[i + 1];
                    assert(pair_le(x.sort_key(), y.sort_key()));
                    assert forall|t: int| 0 <= t < out@.len() implies pair_le(
                        (#[trigger] out@[t]).sort_key(),
                        y.sort_key(),
                    ) by {
                        if t < before.len() {
                            assert(out@[t] == before[t]);
                            assert(pair_le(before[t].sort_key(), x.sort_key()));
                        }
                    }
                }
                if j < b@.len() {
                    let y: T = b@[j as int];
                    assert forall|t: int| 0 <= t < out@.len() implies pair_le(
                        (#[trigger] out@[t]).sort_key(),
                        y.sort_key(),
                    ) by {
                        if t < before.len() {
                            assert(out@[t] == before[t]);
                        }
                    }
                }
            }
            i = i + 1;
        } else {
            let x: T = b[j];
            proof {
                lemma_sorted_push(before, x);
                to_multiset_build(before, x);
                to_multiset_build(b@.take(j as int), x);
                assert(b@.take(j + 1) =~= b@.take(j as int).push(x));
                assert(before.push(x).to_multiset() =~= a@.take(i as int).to_multiset().add(
                    b@.take(j + 1).to_multiset(),
                ));
            }
            out.push(x);
            proof {
                if j + 1 < b@.len() {
                    let y: T = b@[j + 1];
                    assert(pair_le(x.sort_key(), y.sort_key()));
                    assert forall|t: int| 0 <= t < out@.len() implies pair_le(
                        (#[trigger] out@[t]).sort_key(),
                        y.sort_key(),
                    ) by {
                        if t < before.len() {
                            assert(out@[t] == before[t]);
                            assert(pair_le(before[t].sort_key(), x.sort_key()));
                        }
                    }
                }
                if i < a@.len() {
                    let y: T = a@[i as int];
                    assert forall|t: int| 0 <= t < out@.len() implies pair_le(
                        (#[trigger] out@[t]).sort_key(),
                        y.sort_key(),
                    ) by {
                        if t < before.len() {
                            assert(out@[t] == before[t]);
                        }
                    }
                }
            }
            j = j + 1;
        }
    }
    proof {
        assert(a@.take(a@.len() as int) =~= a@);
        assert(b@.take(b@.len() as int) =~= b@);
    }
    out
}

/// The items of a vector from `from` up to `to`.
fn copy_range<T: SortKey>(v: &Vec<T>, from: usize, to: usize) -> (r: Vec<T>)
    requires
        from <= to <= v@.len(),
    ensures
        r@ == v@.subrange(from as int, to as int),
{
    let mut out: Vec<T> = Vec::new();
    let mut i: usize = from;
    while i < to
        invariant
            from <= i <= to <= v@.len(),
            out@ == v@.subrange(from as int, i as int),
        decreases to - i,
    {
        out.push(v[i]);
        proof {
            assert(v@.subrange(from as int, i + 1) =~= v@.subrange(from as int, i as int).push(
                v@[i as int],
            ));
        }
        i = i + 1;
    }
    out
}

/// Sorts the items of a vector by their pairs, by merging sorted halves. Items
/// with equal pairs keep their order.
pub fn merge_sort<T: SortKey>(v: &Vec<T>) -> (r: Vec<T>)
    ensures
        sorted_by_key(r@),
        r@.to_multiset() == v@.to_multiset(),
        r@.len() == v@.len(),
    decreases v@.len(),
{
    let n: usize = v.len();
    if n <= 1 {
        let out: Vec<T> = copy_range(v, 0, n);
        proof {
            assert(v@.subrange(0, n as int) =~= v@);
        }
        return out;
    }
    let mid: usize = n / 2;
    let left: Vec<T> = copy_range(v, 0, mid);
    let right: Vec<T> = copy_range(v, mid, n);
    let sorted_left: Vec<T> = merge_sort(&left);
    let sorted_right: Vec<T> = merge_sort(&right);
    proof {
        assert(v@ =~= left@ + right@);
        lemma_multiset_commutative(left@, right@);
    }
    merge(&sorted_left, &sorted_right)
}

/// Sorts keys into Morton order.
pub fn sort_keys(keys: Vec<MortonKey>) -> (r: Vec<MortonKey>)
    ensures
        is_sorted(r@),
        r@.to_multiset() == keys@.to_multiset(),
        r@.len() == keys@.len(),
        forall|x: MortonKey| r@.contains(x) <==> keys@.contains(x),
        all_wf(keys@) ==> all_wf(r@),
{
    let out: Vec<MortonKey> = merge_sort(&keys);
    proof {
        out@.to_multiset_ensures();
        keys@.to_multiset_ensures();
        assert forall|x: MortonKey| out@.contains(x) <==> keys@.contains(x) by {
            assert(out@.contains(x) <==> out@.to_multiset().count(x) > 0);
            assert(keys@.contains(x) <==> keys@.to_multiset().count(x) > 0);
        }
        assert forall|i: int, j: int| 0 <= i < j < out@.len() implies out@[i].morton
            <= out@[j].morton by {
            assert(pair_le(out@[i].sort_key(), out@[j].sort_key()));
        }
        if all_wf(keys@) {
            assert forall|i: int| 0 <= i < out@.len() implies (#[trigger] out@[i]).wf() by {
                assert(out@.contains(out@[i]));
                assert(keys@.contains(out@[i]));
                let j: int = choose|j: int| 0 <= j < keys@.len() && keys@[j] == out@[i];
                assert(keys@[j].wf());
            }
        }
    }
    out
}

} // verus!
