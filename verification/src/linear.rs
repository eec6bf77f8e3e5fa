//! Linear octrees: sequences of keys in Morton order whose cells are disjoint.

use vstd::prelude::*;
use crate::powers::eight_pow;
use crate::morton::{
    lemma_is_ancestor, lemma_key_equal, lemma_morton_order, lemma_nested_or_disjoint,
    lemma_width_order, lemma_width_positive, MortonKey,
};

verus! {

/// Every key of the sequence names a cell.
pub open spec fn all_wf(s: Seq<MortonKey>) -> bool {
    forall|i: int| 0 <= i < s.len() ==> (#[trigger] s[i]).wf()
}

/// The keys stand in Morton order; equal keys may follow each other.
pub open spec fn is_sorted(s: Seq<MortonKey>) -> bool {
    forall|i: int, j: int| 0 <= i < j < s.len() ==> s[i].morton <= s[j].morton
}

/// The keys stand in Morton order and no key occurs twice.
pub open spec fn is_strictly_sorted(s: Seq<MortonKey>) -> bool {
    forall|i: int, j: int| 0 <= i < j < s.len() ==> s[i].morton < s[j].morton
}

/// The sequence is a linear octree: each cell ends before the next one starts.
pub open spec fn is_linear(s: Seq<MortonKey>) -> bool {
    &&& all_wf(s)
    &&& forall|i: int, j: int| 0 <= i < j < s.len() ==> s[i].end() <= s[j].code()
}

/// The cell at index `i` ends where the cell after it starts.
pub open spec fn joins(s: Seq<MortonKey>, i: int) -> bool {
    s[i].end() == s[i + 1].code()
}

/// The cells of the sequence follow each other without a gap from the code `lo`
/// up to the code `hi`.
pub open spec fn tiles(s: Seq<MortonKey>, lo: nat, hi: nat) -> bool {
    &&& all_wf(s)
    &&& lo <= hi
    &&& s.len() == 0 ==> lo == hi
    &&& s.len() > 0 ==> s[0].code() == lo && s[s.len() - 1].end() == hi
    &&& forall|i: int| 0 <= i < s.len() - 1 ==> #[trigger] joins(s, i)
}

/// The sequence is a complete linear octree: its cells tile the whole cube.
pub open spec fn is_complete(s: Seq<MortonKey>) -> bool {
    tiles(s, 0, eight_pow(16))
}

/// What linearizing leaves of a sequence: each key that does not contain its
/// successor, in the same order.
pub open spec fn linearized(s: Seq<MortonKey>) -> Seq<MortonKey>
    decreases s.len(),
{
    if s.len() <= 1 {
        s
    } else if s[0].covers(s[1]) {
        linearized(s.skip(1))
    } else {
        seq![s[0]] + linearized(s.skip(1))
    }
}

/// Of two keys in Morton order, the first contains the second or ends before it starts.
pub proof fn lemma_sorted_pair(a: MortonKey, b: MortonKey)
    requires
        a.wf(),
        b.wf(),
        a.morton <= b.morton,
    ensures
        a.covers(b) || a.end() <= b.code(),
        a.code() <= b.code(),
{
    lemma_morton_order(a, b);
    lemma_width_positive(a);
    lemma_width_positive(b);
    if a.level_spec() <= b.level_spec() {
        lemma_nested_or_disjoint(a, b);
    } else {
        lemma_nested_or_disjoint(b, a);
        if b.covers(a) {
            lemma_key_equal(a, b);
        }
    }
}

/// In a linear octree the keys are strictly sorted and none is an ancestor of another.
pub proof fn lemma_linear_pair(s: Seq<MortonKey>, i: int, j: int)
    requires
        is_linear(s),
        0 <= i < j < s.len(),
    ensures
        s[i].morton < s[j].morton,
        !s[i].overlaps(s[j]),
        !s[i].is_ancestor_spec(s[j]),
        !s[j].is_ancestor_spec(s[i]),
        s[i] != s[j],
{
    lemma_width_positive(s[i]);
    lemma_width_positive(s[j]);
    lemma_morton_order(s[i], s[j]);
    lemma_is_ancestor(s[i], s[j]);
    lemma_is_ancestor(s[j], s[i]);
}

/// A linear octree is strictly sorted.
pub proof fn lemma_linear_sorted(s: Seq<MortonKey>)
    requires
        is_linear(s),
    ensures
        is_strictly_sorted(s),
        is_sorted(s),
{
    assert forall|i: int, j: int| 0 <= i < j < s.len() implies s[i].morton < s[j].morton by {
        lemma_linear_pair(s, i, j);
    }
}

/// In a tiling each cell ends where a later cell starts, or before.
pub proof fn lemma_tiles_pair(s: Seq<MortonKey>, lo: nat, hi: nat, i: int, j: int)
    requires
        tiles(s, lo, hi),
        0 <= i < j < s.len(),
    ensures
        s[i].end() <= s[j].code(),
        lo <= s[i].code(),
        s[j].end() <= hi,
    decreases j - i,
{
    lemma_width_positive(s[i]);
    lemma_width_positive(s[j]);
    assert(joins(s, i));
    if i + 1 < j {
        lemma_tiles_pair(s, lo, hi, i + 1, j);
        lemma_width_positive(s[i + 1]);
    }
    if i > 0 {
        lemma_tiles_bounds(s, lo, hi, i);
    }
    if j < s.len() - 1 {
        lemma_tiles_bounds(s, lo, hi, j);
    }
}

/// In a tiling every cell lies between the two ends.
pub proof fn lemma_tiles_bounds(s: Seq<MortonKey>, lo: nat, hi: nat, i: int)
    requires
        tiles(s, lo, hi),
        0 <= i < s.len(),
    ensures
        lo <= s[i].code(),
        s[i].end() <= hi,
{
    lemma_tiles_low(s, lo, hi, i);
    lemma_tiles_high(s, lo, hi, i);
}

/// In a tiling no cell starts before the lower end.
proof fn lemma_tiles_low(s: Seq<MortonKey>, lo: nat, hi: nat, i: int)
    requires
        tiles(s, lo, hi),
        0 <= i < s.len(),
    ensures
        lo <= s[i].code(),
    decreases i,
{
    if i > 0 {
        lemma_tiles_low(s, lo, hi, i - 1);
        lemma_width_positive(s[i - 1]);
        assert(joins(s, i - 1));
    }
}

/// In a tiling no cell ends after the upper end.
proof fn lemma_tiles_high(s: Seq<MortonKey>, lo: nat, hi: nat, i: int)
    requires
        tiles(s, lo, hi),
        0 <= i < s.len(),
    ensures
        s[i].end() <= hi,
    decreases s.len() - i,
{
    if i < s.len() - 1 {
        lemma_tiles_high(s, lo, hi, i + 1);
        lemma_width_positive(s[i + 1]);
        assert(joins(s, i));
    }
}

/// A tiling is a linear octree.
pub proof fn lemma_tiles_linear(s: Seq<MortonKey>, lo: nat, hi: nat)
    requires
        tiles(s, lo, hi),
    ensures
        is_linear(s),
{
    assert forall|i: int, j: int| 0 <= i < j < s.len() implies s[i].end() <= s[j].code() by {
        lemma_tiles_pair(s, lo, hi, i, j);
    }
}

/// A tiling grows by the cell that starts where it ends.
pub proof fn lemma_tiles_push(s: Seq<MortonKey>, lo: nat, hi: nat, k: MortonKey)
    requires
        tiles(s, lo, hi),
        k.wf(),
        k.code() == hi,
    ensures
        tiles(s.push(k), lo, k.end()),
{
    let t: Seq<MortonKey> = s.push(k);
    lemma_width_positive(k);
    assert forall|i: int| 0 <= i < t.len() implies (#[trigger] t[i]).wf() by {
        if i < s.len() {
            assert(t[i] == s[i]);
        }
    }
    assert forall|i: int| 0 <= i < t.len() - 1 implies #[trigger] joins(t, i) by {
        if i < s.len() - 1 {
            assert(joins(s, i));
            assert(t[i] == s[i]);
            assert(t[i + 1] == s[i + 1]);
        } else {
            assert(t[i] == s[i]);
        }
    }
    if s.len() > 0 {
        assert(t[0] == s[0]);
    }
}

/// Two tilings that meet make one tiling.
pub proof fn lemma_tiles_concat(s: Seq<MortonKey>, t: Seq<MortonKey>, lo: nat, mid: nat, hi: nat)
    requires
        tiles(s, lo, mid),
        tiles(t, mid, hi),
    ensures
        tiles(s + t, lo, hi),
    decreases t.len(),
{
    if t.len() == 0 {
        assert(s + t =~= s);
    } else {
        let k: MortonKey = t[0];
        lemma_tiles_push(s, lo, mid, k);
        let rest: Seq<MortonKey> = t.skip(1);
        assert(tiles(rest, k.end(), hi)) by {
            assert forall|i: int| 0 <= i < rest.len() implies (#[trigger] rest[i]).wf() by {
                assert(rest[i] == t[i + 1]);
            }
            assert forall|i: int| 0 <= i < rest.len() - 1 implies #[trigger] joins(rest, i) by {
                assert(joins(t, i + 1));
                assert(rest[i] == t[i + 1]);
                assert(rest[i + 1] == t[i + 2]);
            }
            if rest.len() > 0 {
                assert(rest[0] == t[1]);
                assert(rest[rest.len() - 1] == t[t.len() - 1]);
                assert(joins(t, 0));
            }
            lemma_tiles_bounds(t, mid, hi, 0);
        }
        lemma_tiles_concat(s.push(k), rest, lo, k.end(), hi);
        assert(s.push(k) + rest =~= s + t);
    }
}

/// In a tiling of `[lo, hi)` every code of that range lies in exactly one cell.
pub proof fn lemma_tiles_locate(s: Seq<MortonKey>, lo: nat, hi: nat, c: nat) -> (i: int)
    requires
        tiles(s, lo, hi),
        lo <= c < hi,
    ensures
        0 <= i < s.len(),
        s[i].code() <= c < s[i].end(),
        forall|j: int| 0 <= j < s.len() && (#[trigger] s[j]).code() <= c < s[j].end() ==> j == i,
{
    let i: int = lemma_tiles_find(s, lo, hi, c, 0);
    assert forall|j: int| 0 <= j < s.len() && (#[trigger] s[j]).code() <= c < s[j].end() implies j == i by {
        if j < i {
            lemma_tiles_pair(s, lo, hi, j, i);
        } else if i < j {
            lemma_tiles_pair(s, lo, hi, i, j);
        }
    }
    i
}

/// The first cell from `from` on that holds the code `c`.
proof fn lemma_tiles_find(s: Seq<MortonKey>, lo: nat, hi: nat, c: nat, from: int) -> (i: int)
    requires
        tiles(s, lo, hi),
        0 <= from < s.len(),
        s[from].code() <= c < hi,
    ensures
        from <= i < s.len(),
        s[i].code() <= c < s[i].end(),
    decreases s.len() - from,
{
    if c < s[from].end() {
        from
    } else {
        if from + 1 < s.len() {
            assert(joins(s, from));
        }
        lemma_tiles_find(s, lo, hi, c, from + 1)
    }
}

/// In a complete linear octree every deepest cell has exactly one key that contains it.
pub proof fn lemma_complete_covers_once(s: Seq<MortonKey>, p: MortonKey) -> (i: int)
    requires
        is_complete(s),
        p.wf(),
    ensures
        0 <= i < s.len(),
        s[i].overlaps(p),
        p.level_spec() == 16 ==> s[i].covers(p),
        p.level_spec() == 16 ==> forall|j: int| 0 <= j < s.len() && (#[trigger] s[j]).covers(p) ==> j == i,
{
    lemma_width_positive(p);
    let i: int = lemma_tiles_locate(s, 0, eight_pow(16), p.code());
    if p.level_spec() == 16 {
        assert(eight_pow(0) == 1);
        assert(p.end() == p.code() + 1);
    }
    i
}

/// The cell lies within a cell of `coarse`.
pub open spec fn covered_by(x: MortonKey, coarse: Seq<MortonKey>) -> bool {
    exists|i: int| 0 <= i < coarse.len() && (#[trigger] coarse[i]).covers(x)
}

/// Every cell of `fine` lies within a cell of `coarse`.
pub open spec fn refines(fine: Seq<MortonKey>, coarse: Seq<MortonKey>) -> bool {
    forall|j: int| 0 <= j < fine.len() ==> covered_by(#[trigger] fine[j], coarse)
}

/// A refinement of a refinement is a refinement.
pub proof fn lemma_refines_transitive(a: Seq<MortonKey>, b: Seq<MortonKey>, c: Seq<MortonKey>)
    requires
        refines(a, b),
        refines(b, c),
    ensures
        refines(a, c),
{
    assert forall|j: int| 0 <= j < a.len() implies covered_by(#[trigger] a[j], c) by {
        assert(covered_by(a[j], b));
        let m: int = choose|m: int| 0 <= m < b.len() && (#[trigger] b[m]).covers(a[j]);
        assert(covered_by(b[m], c));
        let i: int = choose|i: int| 0 <= i < c.len() && (#[trigger] c[i]).covers(b[m]);
        assert(c[i].covers(a[j]));
    }
}

/// The part of a tiling from the index `m` on tiles from where the part before it ends.
pub proof fn lemma_tiles_skip(s: Seq<MortonKey>, lo: nat, hi: nat, m: int)
    requires
        tiles(s, lo, hi),
        1 <= m <= s.len(),
    ensures
        tiles(s.skip(m), s[m - 1].end(), hi),
{
    let rest: Seq<MortonKey> = s.skip(m);
    lemma_tiles_bounds(s, lo, hi, m - 1);
    assert forall|i: int| 0 <= i < rest.len() implies (#[trigger] rest[i]).wf() by {
        assert(rest[i] == s[m + i]);
    }
    assert forall|i: int| 0 <= i < rest.len() - 1 implies #[trigger] joins(rest, i) by {
        assert(joins(s, m + i));
        assert(rest[i] == s[m + i]);
        assert(rest[i + 1] == s[m + i + 1]);
    }
    if rest.len() > 0 {
        assert(rest[0] == s[m]);
        assert(joins(s, m - 1));
        assert(rest[rest.len() - 1] == s[s.len() - 1]);
    }
}

/// In a refinement of a tiling, the cells from index `k` on that start within the
/// first cell of the tiling end with a cell that ends where that first cell ends.
proof fn lemma_find_cut(
    fine: Seq<MortonKey>,
    coarse: Seq<MortonKey>,
    lo: nat,
    hi: nat,
    k: int,
) -> (m: int)
    requires
        tiles(fine, lo, hi),
        tiles(coarse, lo, hi),
        refines(fine, coarse),
        coarse.len() > 0,
        0 <= k < fine.len(),
        fine[k].code() < coarse[0].end(),
    ensures
        k < m <= fine.len(),
        fine[m - 1].end() == coarse[0].end(),
    decreases fine.len() - k,
{
    assert(covered_by(fine[k], coarse));
    let i: int = choose|i: int| 0 <= i < coarse.len() && (#[trigger] coarse[i]).covers(fine[k]);
    lemma_width_positive(fine[k]);
    lemma_tiles_bounds(fine, lo, hi, k);
    lemma_tiles_bounds(coarse, lo, hi, 0);
    if i > 0 {
        lemma_tiles_pair(coarse, lo, hi, 0, i);
        assert(false);
    }
    if fine[k].end() == coarse[0].end() {
        k + 1
    } else {
        if k + 1 == fine.len() {
            if coarse.len() > 1 {
                lemma_tiles_pair(coarse, lo, hi, 0, coarse.len() - 1);
                lemma_width_positive(coarse[coarse.len() - 1]);
            }
            assert(false);
        }
        assert(joins(fine, k));
        lemma_find_cut(fine, coarse, lo, hi, k + 1)
    }
}

/// Where the first `m` cells of a refinement tile the first cell of a tiling, the
/// other cells of the refinement refine the other cells of the tiling.
proof fn lemma_rest_refines(fine: Seq<MortonKey>, coarse: Seq<MortonKey>, lo: nat, hi: nat, m: int)
    requires
        tiles(fine, lo, hi),
        tiles(coarse, lo, hi),
        refines(fine, coarse),
        coarse.len() > 0,
        0 < m <= fine.len(),
        fine[m - 1].end() == coarse[0].end(),
    ensures
        refines(fine.skip(m), coarse.skip(1)),
{
    let fine_rest: Seq<MortonKey> = fine.skip(m);
    let coarse_rest: Seq<MortonKey> = coarse.skip(1);
    assert forall|j: int| 0 <= j < fine_rest.len() implies covered_by(
        #[trigger] fine_rest[j],
        coarse_rest,
    ) by {
        let x: MortonKey = fine[m + j];
        assert(fine_rest[j] == x);
        assert(covered_by(x, coarse));
        let i: int = choose|i: int| 0 <= i < coarse.len() && (#[trigger] coarse[i]).covers(x);
        lemma_tiles_pair(fine, lo, hi, m - 1, m + j);
        lemma_width_positive(x);
        assert(i > 0);
        assert(coarse_rest[i - 1] == coarse[i]);
        assert(coarse_rest[i - 1].covers(x));
    }
}

/// Two cells with the same first code and the same end are the same cell.
pub proof fn lemma_same_interval(a: MortonKey, b: MortonKey)
    requires
        a.wf(),
        b.wf(),
        a.code() == b.code(),
        a.end() == b.end(),
    ensures
        a == b,
{
    if a.level_spec() < b.level_spec() {
        lemma_width_order(a.level_spec(), b.level_spec());
    } else if b.level_spec() < a.level_spec() {
        lemma_width_order(b.level_spec(), a.level_spec());
    }
    lemma_key_equal(a, b);
}

/// A refinement of a tiling has at least as many cells, and as many only if it
/// is the tiling itself.
pub proof fn lemma_refinement_length(fine: Seq<MortonKey>, coarse: Seq<MortonKey>, lo: nat, hi: nat)
    requires
        tiles(fine, lo, hi),
        tiles(coarse, lo, hi),
        refines(fine, coarse),
    ensures
        fine.len() >= coarse.len(),
        fine.len() == coarse.len() ==> fine == coarse,
    decreases coarse.len(),
{
    if coarse.len() == 0 {
        if fine.len() > 0 {
            lemma_tiles_bounds(fine, lo, hi, 0);
            lemma_width_positive(fine[0]);
        }
        assert(fine =~= coarse);
    } else {
        let first: MortonKey = coarse[0];
        lemma_tiles_bounds(coarse, lo, hi, 0);
        lemma_width_positive(first);
        assert(fine.len() > 0);
        let m: int = lemma_find_cut(fine, coarse, lo, hi, 0);
        let fine_rest: Seq<MortonKey> = fine.skip(m);
        let coarse_rest: Seq<MortonKey> = coarse.skip(1);
        lemma_tiles_skip(fine, lo, hi, m);
        lemma_tiles_skip(coarse, lo, hi, 1);
        lemma_rest_refines(fine, coarse, lo, hi, m);
        lemma_refinement_length(fine_rest, coarse_rest, first.end(), hi);
        if fine.len() == coarse.len() {
            assert(m == 1);
            assert(fine_rest == coarse_rest);
            lemma_same_interval(fine[0], first);
            assert forall|i: int| 0 <= i < fine.len() implies fine[i] == coarse[i] by {
                if i > 0 {
                    assert(fine_rest[i - 1] == fine[i]);
                    assert(coarse_rest[i - 1] == coarse[i]);
                }
            }
            assert(fine =~= coarse);
        }
    }
}

/// A tiling has no more cells than there are codes in its range.
pub proof fn lemma_tiles_length(s: Seq<MortonKey>, lo: nat, hi: nat)
    requires
        tiles(s, lo, hi),
    ensures
        s.len() <= hi - lo,
    decreases s.len(),
{
    if s.len() > 0 {
        lemma_tiles_bounds(s, lo, hi, 0);
        lemma_width_positive(s[0]);
        lemma_tiles_skip(s, lo, hi, 1);
        lemma_tiles_length(s.skip(1), s[0].end(), hi);
    }
}

/// Every key that linearizing leaves is a key of the sequence.
pub proof fn lemma_linearized_subset(s: Seq<MortonKey>, x: MortonKey)
    requires
        linearized(s).contains(x),
    ensures
        s.contains(x),
    decreases s.len(),
{
    if s.len() > 1 {
        let tail: Seq<MortonKey> = s.skip(1);
        let l: Seq<MortonKey> = linearized(s);
        let j: int = choose|j: int| 0 <= j < l.len() && l[j] == x;
        if s[0].covers(s[1]) {
            lemma_linearized_subset(tail, x);
        } else {
            if j == 0 {
                assert(s[0] == x);
            } else {
                assert(linearized(tail)[j - 1] == x);
                lemma_linearized_subset(tail, x);
            }
        }
        if tail.contains(x) {
            let t: int = choose|t: int| 0 <= t < tail.len() && tail[t] == x;
            assert(s[t + 1] == x);
        }
    }
}

/// Linearizing a sorted sequence gives a linear octree.
pub proof fn lemma_linearized_linear(s: Seq<MortonKey>)
    requires
        all_wf(s),
        is_sorted(s),
    ensures
        is_linear(linearized(s)),
        s.len() > 0 ==> linearized(s).len() > 0,
    decreases s.len(),
{
    if s.len() > 1 {
        let tail: Seq<MortonKey> = s.skip(1);
        assert(all_wf(tail)) by {
            assert forall|i: int| 0 <= i < tail.len() implies (#[trigger] tail[i]).wf() by {
                assert(tail[i] == s[i + 1]);
            }
        }
        assert(is_sorted(tail)) by {
            assert forall|i: int, j: int| 0 <= i < j < tail.len() implies tail[i].morton
                <= tail[j].morton by {
                assert(tail[i] == s[i + 1]);
                assert(tail[j] == s[j + 1]);
            }
        }
        lemma_linearized_linear(tail);
        let lt: Seq<MortonKey> = linearized(tail);
        if !s[0].covers(s[1]) {
            let l: Seq<MortonKey> = linearized(s);
            assert(l == seq![s[0]] + lt);
            assert forall|i: int| 0 <= i < l.len() implies (#[trigger] l[i]).wf() by {
                if i > 0 {
                    assert(l[i] == lt[i - 1]);
                }
            }
            assert forall|i: int, j: int| 0 <= i < j < l.len() implies l[i].end()
                <= l[j].code() by {
                assert(l[j] == lt[j - 1]);
                if i == 0 {
                    assert(lt.contains(lt[j - 1]));
                    lemma_linearized_subset(tail, lt[j - 1]);
                    let t: int = choose|t: int| 0 <= t < tail.len() && tail[t] == lt[j - 1];
                    assert(s[t + 1] == lt[j - 1]);
                    lemma_sorted_pair(s[0], s[1]);
                    lemma_sorted_pair(s[1], s[t + 1]);
                } else {
                    assert(l[i] == lt[i - 1]);
                }
            }
        }
    } else {
        assert(linearized(s) == s);
    }
}

/// Every key of a sorted sequence contains a key that linearizing leaves.
pub proof fn lemma_linearized_survivor(s: Seq<MortonKey>, i: int) -> (x: MortonKey)
    requires
        all_wf(s),
        is_sorted(s),
        0 <= i < s.len(),
    ensures
        linearized(s).contains(x),
        s[i].covers(x),
    decreases s.len(),
{
    if s.len() <= 1 {
        assert(linearized(s)[0] == s[0]);
        s[0]
    } else {
        let tail: Seq<MortonKey> = s.skip(1);
        assert(all_wf(tail)) by {
            assert forall|j: int| 0 <= j < tail.len() implies (#[trigger] tail[j]).wf() by {
                assert(tail[j] == s[j + 1]);
            }
        }
        assert(is_sorted(tail)) by {
            assert forall|a: int, b: int| 0 <= a < b < tail.len() implies tail[a].morton
                <= tail[b].morton by {
                assert(tail[a] == s[a + 1]);
                assert(tail[b] == s[b + 1]);
            }
        }
        let lt: Seq<MortonKey> = linearized(tail);
        let l: Seq<MortonKey> = linearized(s);
        if i == 0 && !s[0].covers(s[1]) {
            assert(l[0] == s[0]);
            s[0]
        } else {
            let from: int = if i == 0 {
                0
            } else {
                i - 1
            };
            let x: MortonKey = lemma_linearized_survivor(tail, from);
            assert(tail[from] == s[from + 1]);
            let j: int = choose|j: int| 0 <= j < lt.len() && lt[j] == x;
            if s[0].covers(s[1]) {
                assert(l[j] == x);
            } else {
                assert(l[j + 1] == x);
            }
            x
        }
    }
}

/// Linearizing a linear octree leaves it as it is.
pub proof fn lemma_linearized_of_linear(s: Seq<MortonKey>)
    requires
        is_linear(s),
    ensures
        linearized(s) == s,
    decreases s.len(),
{
    if s.len() > 1 {
        let tail: Seq<MortonKey> = s.skip(1);
        assert(is_linear(tail)) by {
            assert forall|i: int| 0 <= i < tail.len() implies (#[trigger] tail[i]).wf() by {
                assert(tail[i] == s[i + 1]);
            }
            assert forall|i: int, j: int| 0 <= i < j < tail.len() implies tail[i].end()
                <= tail[j].code() by {
                assert(tail[i] == s[i + 1]);
                assert(tail[j] == s[j + 1]);
            }
        }
        lemma_linearized_of_linear(tail);
        lemma_width_positive(s[1]);
        assert(s[0].end() <= s[1].code());
        assert(seq![s[0]] + tail =~= s);
    }
}

/// The key is a key of the sequence that contains no other key of it.
pub open spec fn is_finest_in(x: MortonKey, s: Seq<MortonKey>) -> bool {
    s.contains(x) && forall|b: int| 0 <= b < s.len() && x.covers(#[trigger] s[b]) ==> s[b] == x
}

/// A key that linearizing leaves contains no other key of the sequence.
pub proof fn lemma_linearized_kept(s: Seq<MortonKey>, x: MortonKey, b: int)
    requires
        all_wf(s),
        is_sorted(s),
        linearized(s).contains(x),
        0 <= b < s.len(),
        x.covers(s[b]),
    ensures
        s[b] == x,
    decreases s.len(),
{
    if s.len() > 1 {
        let tail: Seq<MortonKey> = s.skip(1);
        assert(all_wf(tail)) by {
            assert forall|i: int| 0 <= i < tail.len() implies (#[trigger] tail[i]).wf() by {
                assert(tail[i] == s[i + 1]);
            }
        }
        assert(is_sorted(tail)) by {
            assert forall|i: int, j: int| 0 <= i < j < tail.len() implies tail[i].morton
                <= tail[j].morton by {
                assert(tail[i] == s[i + 1]);
                assert(tail[j] == s[j + 1]);
            }
        }
        let l: Seq<MortonKey> = linearized(s);
        let lt: Seq<MortonKey> = linearized(tail);
        let j: int = choose|j: int| 0 <= j < l.len() && l[j] == x;
        let first_kept: bool = !s[0].covers(s[1]);
        if first_kept && j == 0 {
            assert(x == s[0]);
            if b > 0 {
                lemma_sorted_pair(s[0], s[1]);
                lemma_sorted_pair(s[1], s[b]);
                lemma_width_positive(s[b]);
                assert(false);
            }
        } else {
            if first_kept {
                assert(lt[j - 1] == x);
            } else {
                assert(lt[j] == x);
            }
            assert(lt.contains(x));
            lemma_linearized_subset(tail, x);
            let t: int = choose|t: int| 0 <= t < tail.len() && tail[t] == x;
            assert(s[t + 1] == x);
            if b == 0 {
                lemma_covers_pair(x, s[0]);
                assert(s[0].morton <= s[t + 1].morton);
                if x != s[0] {
                    assert(false);
                }
            } else {
                assert(tail[b - 1] == s[b]);
                lemma_linearized_kept(tail, x, b - 1);
            }
        }
    } else {
        assert(linearized(s) == s);
        let j: int = choose|j: int| 0 <= j < s.len() && s[j] == x;
    }
}

/// A key that contains another and is not that key comes before it in Morton order.
pub proof fn lemma_covers_pair(a: MortonKey, b: MortonKey)
    requires
        a.wf(),
        b.wf(),
        a.covers(b),
    ensures
        a.morton <= b.morton,
        a != b ==> a.morton < b.morton,
{
    crate::morton::lemma_covers_levels(a, b);
    lemma_morton_order(a, b);
}

/// Linearizing a sorted sequence leaves exactly its keys that contain no other key.
pub proof fn lemma_linearized_members(s: Seq<MortonKey>)
    requires
        all_wf(s),
        is_sorted(s),
    ensures
        forall|x: MortonKey| #[trigger] linearized(s).contains(x) <==> is_finest_in(x, s),
{
    assert forall|x: MortonKey| #[trigger] linearized(s).contains(x) <==> is_finest_in(x, s) by {
        if linearized(s).contains(x) {
            lemma_linearized_subset(s, x);
            assert forall|b: int| 0 <= b < s.len() && x.covers(#[trigger] s[b]) implies s[b]
                == x by {
                lemma_linearized_kept(s, x, b);
            }
        }
        if is_finest_in(x, s) {
            let i: int = choose|i: int| 0 <= i < s.len() && s[i] == x;
            let survivor: MortonKey = lemma_linearized_survivor(s, i);
            lemma_linearized_subset(s, survivor);
            let b: int = choose|b: int| 0 <= b < s.len() && s[b] == survivor;
            assert(x.covers(s[b]));
        }
    }
}

/// Two strictly sorted sequences with the same keys are the same sequence.
pub proof fn lemma_same_keys_same_sequence(a: Seq<MortonKey>, b: Seq<MortonKey>)
    requires
        is_strictly_sorted(a),
        is_strictly_sorted(b),
        forall|x: MortonKey| a.contains(x) <==> b.contains(x),
    ensures
        a == b,
    decreases a.len(),
{
    if a.len() == 0 {
        if b.len() > 0 {
            assert(b.contains(b[0]));
            assert(a.contains(b[0]));
        }
        assert(a =~= b);
    } else {
        let top: MortonKey = a[a.len() - 1];
        assert(a.contains(top));
        assert(b.contains(top));
        let at: int = choose|at: int| 0 <= at < b.len() && b[at] == top;
        if at < b.len() - 1 {
            let other: MortonKey = b[b.len() - 1];
            assert(b.contains(other));
            assert(a.contains(other));
            let back: int = choose|back: int| 0 <= back < a.len() && a[back] == other;
            assert(b[at].morton < other.morton);
            if back < a.len() - 1 {
                assert(a[back].morton < top.morton);
            }
            assert(false);
        }
        let a_rest: Seq<MortonKey> = a.drop_last();
        let b_rest: Seq<MortonKey> = b.drop_last();
        assert forall|x: MortonKey| a_rest.contains(x) <==> b_rest.contains(x) by {
            if a_rest.contains(x) {
                let i: int = choose|i: int| 0 <= i < a_rest.len() && a_rest[i] == x;
                assert(a[i] == x);
                assert(a.contains(x));
                assert(a[i].morton < top.morton);
                let j: int = choose|j: int| 0 <= j < b.len() && b[j] == x;
                assert(j < b.len() - 1);
                assert(b_rest[j] == x);
            }
            if b_rest.contains(x) {
                let i: int = choose|i: int| 0 <= i < b_rest.len() && b_rest[i] == x;
                assert(b[i] == x);
                assert(b.contains(x));
                assert(b[i].morton < top.morton);
                let j: int = choose|j: int| 0 <= j < a.len() && a[j] == x;
                assert(j < a.len() - 1);
                assert(a_rest[j] == x);
            }
        }
        assert(is_strictly_sorted(a_rest)) by {
            assert forall|i: int, j: int| 0 <= i < j < a_rest.len() implies a_rest[i].morton
                < a_rest[j].morton by {
                assert(a_rest[i] == a[i]);
                assert(a_rest[j] == a[j]);
            }
        }
        assert(is_strictly_sorted(b_rest)) by {
            assert forall|i: int, j: int| 0 <= i < j < b_rest.len() implies b_rest[i].morton
                < b_rest[j].morton by {
                assert(b_rest[i] == b[i]);
                assert(b_rest[j] == b[j]);
            }
        }
        lemma_same_keys_same_sequence(a_rest, b_rest);
        assert(a =~= a_rest.push(top));
        assert(b =~= b_rest.push(top));
    }
}

/// What linearizing leaves of a sorted sequence depends on the keys of the
/// sequence only, not on how often a key occurs.
pub proof fn lemma_linearized_same_set(a: Seq<MortonKey>, b: Seq<MortonKey>)
    requires
        all_wf(a),
        is_sorted(a),
        all_wf(b),
        is_sorted(b),
        forall|x: MortonKey| a.contains(x) <==> b.contains(x),
    ensures
        linearized(a) == linearized(b),
{
    lemma_linearized_members(a);
    lemma_linearized_members(b);
    lemma_linearized_linear(a);
    lemma_linearized_linear(b);
    lemma_linear_sorted(linearized(a));
    lemma_linear_sorted(linearized(b));
    assert forall|x: MortonKey| linearized(a).contains(x) <==> linearized(b).contains(x) by {
        assert(linearized(a).contains(x) <==> is_finest_in(x, a));
        assert(linearized(b).contains(x) <==> is_finest_in(x, b));
        if is_finest_in(x, a) {
            assert forall|i: int| 0 <= i < b.len() && x.covers(#[trigger] b[i]) implies b[i]
                == x by {
                assert(b.contains(b[i]));
                assert(a.contains(b[i]));
                let j: int = choose|j: int| 0 <= j < a.len() && a[j] == b[i];
                assert(x.covers(a[j]));
            }
        }
        if is_finest_in(x, b) {
            assert forall|i: int| 0 <= i < a.len() && x.covers(#[trigger] a[i]) implies a[i]
                == x by {
                assert(a.contains(a[i]));
                assert(b.contains(a[i]));
                let j: int = choose|j: int| 0 <= j < b.len() && b[j] == a[i];
                assert(x.covers(b[j]));
            }
        }
    }
    lemma_same_keys_same_sequence(linearized(a), linearized(b));
}

/// Removes from a sequence of keys every key that contains its successor: every
/// ancestor of its successor, and every key that its successor repeats.
pub fn linearize(keys: &Vec<MortonKey>) -> (r: Vec<MortonKey>)
    requires
        all_wf(keys@),
    ensures
        r@ == linearized(keys@),
        is_sorted(keys@) ==> is_linear(r@),
{
    let mut out: Vec<MortonKey> = Vec::new();
    let n: usize = keys.len();
    if n == 0 {
        proof {
            lemma_linearized_linear(keys@);
        }
        return out;
    }
    let mut i: usize = 0;
    proof {
        assert(keys@.skip(0) =~= keys@);
        assert(out@ + linearized(keys@) =~= linearized(keys@));
    }
    while i < n - 1
        invariant
            n == keys@.len(),
            n > 0,
            i <= n - 1,
            all_wf(keys@),
            out@ + linearized(keys@.skip(i as int)) == linearized(keys@),
        decreases n - i,
    {
        let a: MortonKey = keys[i];
        let b: MortonKey = keys[i + 1];
        proof {
            let rest: Seq<MortonKey> = keys@.skip(i as int);
            assert(rest[0] == a);
            assert(rest[1] == b);
            assert(rest.skip(1) =~= keys@.skip(i + 1));
            if !a.covers(b) {
                assert(out@.push(a) + linearized(keys@.skip(i + 1)) =~= out@ + (seq![a]
                    + linearized(keys@.skip(i + 1))));
            }
        }
        if !a.contains(&b) {
            out.push(a);
        }
        i = i + 1;
    }
    proof {
        let rest: Seq<MortonKey> = keys@.skip(i as int);
        assert(rest.len() == 1);
        assert(linearized(rest) == rest);
        assert(out@.push(keys@[i as int]) =~= out@ + rest);
        if is_sorted(keys@) {
            lemma_linearized_linear(keys@);
        }
    }
    out.push(keys[i]);
    out
}

} // verus!
