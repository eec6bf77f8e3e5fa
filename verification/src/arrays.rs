//! One-dimensional arrays of keys, held in `ndarray` arrays, and the keys of an
//! array without repetitions.

use vstd::prelude::*;

verus! {

/// An array of keys, one for each particle, held in an `ndarray::Array1<u64>`.
#[verifier::external_body]
pub struct KeyArray {
    inner: ndarray::Array1<u64>,
}

/// The items of an array, in order.
pub uninterp spec fn array_items(a: KeyArray) -> Seq<u64>;

/// `ndarray::Array1::from_vec`: the array that holds the items of the vector, in
/// order. It refuses a vector of more than `isize::MAX` items of no size; a vector
/// of items of eight bytes is never that long.
#[verifier::external_body]
fn array_from_vec(v: Vec<u64>) -> (a: KeyArray)
    ensures
        array_items(a) == v@,
{
    KeyArray { inner: ndarray::Array1::from_vec(v) }
}

/// `ndarray::ArrayBase::to_vec`: the items of the array as a vector, in order.
#[verifier::external_body]
fn array_to_vec(a: &KeyArray) -> (v: Vec<u64>)
    ensures
        v@ == array_items(*a),
{
    a.inner.to_vec()
}

/// `ndarray::ArrayBase::len`: the number of items of the array.
#[verifier::external_body]
fn array_len(a: &KeyArray) -> (n: usize)
    ensures
        n == array_items(*a).len(),
{
    a.inner.len()
}

impl View for KeyArray {
    type V = Seq<u64>;

    open spec fn view(&self) -> Seq<u64> {
        array_items(*self)
    }
}

impl KeyArray {
    /// The array that holds the items of `v`, in order.
    pub fn from_vec(v: Vec<u64>) -> (a: KeyArray)
        ensures
            a@ == v@,
    {
        array_from_vec(v)
    }

    /// The items of the array, in order.
    pub fn to_vec(&self) -> (v: Vec<u64>)
        ensures
            v@ == self@,
    {
        array_to_vec(self)
    }

    /// The number of items.
    pub fn len(&self) -> (n: usize)
        ensures
            n == self@.len(),
    {
        array_len(self)
    }
}

/// The items of a sequence without repetitions: each item where it first occurs.
pub open spec fn first_occurrences(s: Seq<u64>) -> Seq<u64>
    decreases s.len(),
{
    if s.len() == 0 {
        s
    } else {
        let before: Seq<u64> = first_occurrences(s.drop_last());
        if before.contains(s.last()) {
            before
        } else {
            before.push(s.last())
        }
    }
}

/// `itertools::Itertools::unique` on the items of a vector: the items without
/// those that occurred before, in the order in which they first occur.
#[verifier::external_body]
fn unique_items(v: &Vec<u64>) -> (r: Vec<u64>)
    ensures
        r@ == first_occurrences(v@),
{
    itertools::Itertools::unique(v.iter().copied()).collect()
}

/// The first occurrences hold every item of the sequence once.
pub proof fn lemma_first_occurrences(s: Seq<u64>)
    ensures
        first_occurrences(s).no_duplicates(),
        forall|x: u64| #[trigger] first_occurrences(s).contains(x) <==> s.contains(x),
        forall|x: u64| #[trigger] s.contains(x) ==> first_occurrences(s).contains(x),
    decreases s.len(),
{
    if s.len() > 0 {
        let head: Seq<u64> = s.drop_last();
        let before: Seq<u64> = first_occurrences(head);
        let f: Seq<u64> = first_occurrences(s);
        lemma_first_occurrences(head);
        assert forall|x: u64| f.contains(x) <==> s.contains(x) by {
            if f.contains(x) {
                let j: int = choose|j: int| 0 <= j < f.len() && f[j] == x;
                if j < before.len() {
                    assert(before[j] == x);
                    assert(before.contains(x));
                    assert(head.contains(x));
                    let w: int = choose|w: int| 0 <= w < head.len() && head[w] == x;
                    assert(s[w] == x);
                } else {
                    assert(s[s.len() - 1] == x);
                }
            }
            if s.contains(x) {
                let w: int = choose|w: int| 0 <= w < s.len() && s[w] == x;
                if w < head.len() {
                    assert(head[w] == x);
                    assert(head.contains(x));
                    let j: int = choose|j: int| 0 <= j < before.len() && before[j] == x;
                    assert(f[j] == x);
                } else {
                    if before.contains(x) {
                        let j: int = choose|j: int| 0 <= j < before.len() && before[j] == x;
                        assert(f[j] == x);
                    } else {
                        assert(f[before.len() as int] == x);
                    }
                }
            }
        }
        if !before.contains(s.last()) {
            assert forall|i: int, j: int| 0 <= i < f.len() && 0 <= j < f.len() && i != j implies f[i]
                != f[j] by {
                if i < before.len() {
                    assert(before[i] == f[i]);
                    assert(before.contains(f[i]));
                }
                if j < before.len() {
                    assert(before[j] == f[j]);
                    assert(before.contains(f[j]));
                }
            }
        }
    }
}

/// The first occurrences are no more than the items.
pub proof fn lemma_first_occurrences_length(s: Seq<u64>)
    ensures
        first_occurrences(s).len() <= s.len(),
    decreases s.len(),
{
    if s.len() > 0 {
        lemma_first_occurrences_length(s.drop_last());
    }
}

/// The items of `v` without repetitions, each where it first occurs.
pub fn unique_keys(v: &Vec<u64>) -> (r: Vec<u64>)
    ensures
        r@ == first_occurrences(v@),
        r@.no_duplicates(),
        forall|x: u64| r@.contains(x) <==> v@.contains(x),
{
    proof {
        lemma_first_occurrences(v@);
    }
    unique_items(v)
}

} // verus!
