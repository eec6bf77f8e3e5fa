//! Relations between the leaves of a linear octree: which leaf holds a cell, and
//! which leaves stand for the near field and the interaction list of a leaf.
//!
//! A cell that a relation names need not be a leaf itself. Where a leaf contains
//! it, that leaf stands for it. Leaves are named by their index in the tree.

use vstd::prelude::*;
use crate::morton::{lemma_width_positive, MortonKey};
use crate::linear::{all_wf, is_complete, is_linear, lemma_complete_covers_once, lemma_linear_pair};
use crate::neighbors::{compute_interaction_list, compute_near_field};

verus! {

/// The leaf at index `j` stands for one of the cells.
pub open spec fn stands_for(tree: Seq<MortonKey>, j: int, cells: Seq<MortonKey>) -> bool {
    0 <= j < tree.len() && exists|t: int| 0 <= t < cells.len() && tree[j].covers(#[trigger] cells[t])
}

/// The leaf at index `j` stands for a cell of the near field of the leaf at index `i`.
pub open spec fn in_lifted_near_field(tree: Seq<MortonKey>, i: int, j: int) -> bool {
    0 <= j < tree.len() && exists|n: MortonKey| #[trigger]
        n.in_near_field_of(tree[i]) && tree[j].covers(n)
}

/// The leaf at index `j` stands for a cell of the interaction list of the leaf at index `i`.
pub open spec fn in_lifted_interaction_list(tree: Seq<MortonKey>, i: int, j: int) -> bool {
    0 <= j < tree.len() && exists|n: MortonKey| #[trigger]
        n.in_interaction_list_of(tree[i]) && tree[j].covers(n)
}

/// The index of the leaf that contains the cell `key`, if there is one.
pub fn find_leaf(tree: &Vec<MortonKey>, key: &MortonKey) -> (r: Option<usize>)
    requires
        is_linear(tree@),
        key.wf(),
    ensures
        match r {
            Some(j) => j < tree@.len() && tree@[j as int].covers(*key),
            None => forall|j: int| 0 <= j < tree@.len() ==> !(#[trigger] tree@[j]).covers(*key),
        },
{
    let code: u64 = key.position();
    let mut lo: usize = 0;
    let mut hi: usize = tree.len();
    while lo < hi
        invariant
            lo <= hi <= tree@.len(),
            is_linear(tree@),
            code == key.code(),
            forall|j: int| 0 <= j < lo ==> (#[trigger] tree@[j]).code() <= code,
            forall|j: int| hi <= j < tree@.len() ==> (#[trigger] tree@[j]).code() > code,
        decreases hi - lo,
    {
        let mid: usize = lo + (hi - lo) / 2;
        let at: u64 = tree[mid].position();
        if at <= code {
            proof {
                assert forall|j: int| 0 <= j < mid + 1 implies (#[trigger] tree@[j]).code()
                    <= code by {
                    if j < mid {
                        lemma_linear_pair(tree@, j, mid as int);
                        lemma_width_positive(tree@[j]);
                    }
                }
            }
            lo = mid + 1;
        } else {
            proof {
                assert forall|j: int| mid <= j < tree@.len() implies (#[trigger] tree@[j]).code()
                    > code by {
                    if mid < j {
                        lemma_linear_pair(tree@, mid as int, j);
                        lemma_width_positive(tree@[mid as int]);
                    }
                }
            }
            hi = mid;
        }
    }
    proof {
        lemma_width_positive(*key);
    }
    if lo == 0 {
        return None;
    }
    let j: usize = lo - 1;
    if tree[j].contains(key) {
        Some(j)
    } else {
        proof {
            assert forall|t: int| 0 <= t < tree@.len() implies !(#[trigger] tree@[t]).covers(
                *key,
            ) by {
                if t < j {
                    lemma_linear_pair(tree@, t, j as int);
                }
            }
        }
        None
    }
}

/// The leaves that stand for the first `t + 1` cells are those that stand for
/// the first `t` and the one that contains the cell at `t`.
proof fn lemma_stands_for_step(tree: Seq<MortonKey>, cells: Seq<MortonKey>, t: int, j: int)
    requires
        0 <= t < cells.len(),
    ensures
        stands_for(tree, j, cells.take(t + 1)) <==> (stands_for(tree, j, cells.take(t)) || (0 <= j
            < tree.len() && tree[j].covers(cells[t]))),
{
    let shorter: Seq<MortonKey> = cells.take(t);
    let longer: Seq<MortonKey> = cells.take(t + 1);
    if stands_for(tree, j, shorter) {
        let w: int = choose|w: int| 0 <= w < shorter.len() && tree[j].covers(#[trigger] shorter[w]);
        assert(longer[w] == shorter[w]);
    }
    if stands_for(tree, j, longer) {
        let w: int = choose|w: int| 0 <= w < longer.len() && tree[j].covers(#[trigger] longer[w]);
        if w < t {
            assert(shorter[w] == longer[w]);
        } else {
            assert(longer[w] == cells[t]);
        }
    }
    if 0 <= j < tree.len() && tree[j].covers(cells[t]) {
        assert(longer[t] == cells[t]);
    }
}

/// At most one leaf of a linear octree contains a cell.
proof fn lemma_one_leaf(tree: Seq<MortonKey>, cell: MortonKey, a: int, b: int)
    requires
        is_linear(tree),
        cell.wf(),
        0 <= a < tree.len(),
        0 <= b < tree.len(),
        tree[a].covers(cell),
        tree[b].covers(cell),
    ensures
        a == b,
{
    lemma_width_positive(cell);
    if a < b {
        lemma_linear_pair(tree, a, b);
    } else if b < a {
        lemma_linear_pair(tree, b, a);
    }
}

/// The indices of the leaves that stand for the given cells, each once.
pub fn lift(tree: &Vec<MortonKey>, cells: &Vec<MortonKey>) -> (r: Vec<usize>)
    requires
        is_linear(tree@),
        all_wf(cells@),
    ensures
        forall|j: usize| #[trigger] r@.contains(j) <==> stands_for(tree@, j as int, cells@),
        forall|a: int| 0 <= a < r@.len() ==> (#[trigger] r@[a]) < tree@.len(),
        r@.no_duplicates(),
        r@.len() <= cells@.len(),
{
    let mut out: Vec<usize> = Vec::new();
    let mut t: usize = 0;
    while t < cells.len()
        invariant
            t <= cells@.len(),
            is_linear(tree@),
            all_wf(cells@),
            forall|j: usize| #[trigger]
                out@.contains(j) <==> stands_for(tree@, j as int, cells@.take(t as int)),
            forall|a: int| 0 <= a < out@.len() ==> (#[trigger] out@[a]) < tree@.len(),
            out@.no_duplicates(),
            out@.len() <= t,
        decreases cells@.len() - t,
    {
        let cell: MortonKey = cells[t];
        let found: Option<usize> = find_leaf(tree, &cell);
        let ghost before: Seq<usize> = out@;
        match found {
            Some(f) => {
                if !holds_index(&out, f) {
                    out.push(f);
                }
            },
            None => {},
        }
        proof {
            let after: Seq<usize> = out@;
            let shorter: Seq<MortonKey> = cells@.take(t as int);
            let longer: Seq<MortonKey> = cells@.take(t + 1);
            assert forall|j: usize| #[trigger]
                after.contains(j) <==> stands_for(tree@, j as int, longer) by {
                lemma_stands_for_step(tree@, cells@, t as int, j as int);
                assert(before.contains(j) <==> stands_for(tree@, j as int, shorter));
                if j < tree@.len() && tree@[j as int].covers(cell) {
                    lemma_one_leaf(tree@, cell, j as int, found.unwrap() as int);
                }
                if after != before {
                    assert(after == before.push(found.unwrap()));
                    if before.contains(j) {
                        let a: int = choose|a: int| 0 <= a < before.len() && before[a] == j;
                        assert(after[a] == j);
                    }
                    if after.contains(j) {
                        let a: int = choose|a: int| 0 <= a < after.len() && after[a] == j;
                        if a < before.len() {
                            assert(before[a] == j);
                        }
                    }
                    assert(after[before.len() as int] == found.unwrap());
                }
            }
        }
        t = t + 1;
    }
    proof {
        assert(cells@.take(cells@.len() as int) =~= cells@);
    }
    out
}

/// Whether the list holds the index.
fn holds_index(list: &Vec<usize>, j: usize) -> (r: bool)
    ensures
        r == list@.contains(j),
{
    let mut a: usize = 0;
    while a < list.len()
        invariant
            a <= list@.len(),
            forall|b: int| 0 <= b < a ==> list@[b] != j,
        decreases list@.len() - a,
    {
        if list[a] == j {
            return true;
        }
        a = a + 1;
    }
    false
}

/// The leaves in the near field of the leaf at index `i`: the leaves that stand
/// for the leaf itself and for its neighbours.
pub fn near_field_of_leaf(tree: &Vec<MortonKey>, i: usize) -> (r: Vec<usize>)
    requires
        is_linear(tree@),
        i < tree@.len(),
    ensures
        forall|j: usize| #[trigger] r@.contains(j) <==> in_lifted_near_field(tree@, i as int, j as int),
        forall|a: int| 0 <= a < r@.len() ==> (#[trigger] r@[a]) < tree@.len(),
        r@.no_duplicates(),
        r@.len() <= 27,
{
    let cells: Vec<MortonKey> = compute_near_field(tree[i]);
    let out: Vec<usize> = lift(tree, &cells);
    proof {
        assert forall|u: usize| #[trigger]
            out@.contains(u) <==> in_lifted_near_field(tree@, i as int, u as int) by {
            let j: int = u as int;
            if stands_for(tree@, j, cells@) {
                let t: int = choose|t: int|
                    0 <= t < cells@.len() && tree@[j].covers(#[trigger] cells@[t]);
                assert(cells@.contains(cells@[t]));
                assert(cells@[t].in_near_field_of(tree@[i as int]));
            }
            if in_lifted_near_field(tree@, i as int, j) {
                let n: MortonKey = choose|n: MortonKey| #[trigger]
                    n.in_near_field_of(tree@[i as int]) && tree@[j].covers(n);
                assert(cells@.contains(n));
                let t: int = choose|t: int| 0 <= t < cells@.len() && cells@[t] == n;
                assert(tree@[j].covers(cells@[t]));
            }
        }
    }
    out
}

/// The leaves in the interaction list of the leaf at index `i`: the leaves that
/// stand for the cells of its interaction list.
pub fn interaction_list_of_leaf(tree: &Vec<MortonKey>, i: usize) -> (r: Vec<usize>)
    requires
        is_linear(tree@),
        i < tree@.len(),
    ensures
        forall|j: usize| #[trigger]
            r@.contains(j) <==> in_lifted_interaction_list(tree@, i as int, j as int),
        forall|a: int| 0 <= a < r@.len() ==> (#[trigger] r@[a]) < tree@.len(),
        r@.no_duplicates(),
        r@.len() <= 189,
{
    let cells: Vec<MortonKey> = compute_interaction_list(tree[i]);
    let out: Vec<usize> = lift(tree, &cells);
    proof {
        assert forall|u: usize| #[trigger]
            out@.contains(u) <==> in_lifted_interaction_list(tree@, i as int, u as int) by {
            let j: int = u as int;
            if stands_for(tree@, j, cells@) {
                let t: int = choose|t: int|
                    0 <= t < cells@.len() && tree@[j].covers(#[trigger] cells@[t]);
                assert(cells@.contains(cells@[t]));
                assert(cells@[t].in_interaction_list_of(tree@[i as int]));
            }
            if in_lifted_interaction_list(tree@, i as int, j) {
                let n: MortonKey = choose|n: MortonKey| #[trigger]
                    n.in_interaction_list_of(tree@[i as int]) && tree@[j].covers(n);
                assert(cells@.contains(n));
                let t: int = choose|t: int| 0 <= t < cells@.len() && cells@[t] == n;
                assert(tree@[j].covers(cells@[t]));
            }
        }
    }
    out
}

/// The near field of every leaf of a tree, leaf by leaf.
pub fn near_field_map(tree: &Vec<MortonKey>) -> (r: Vec<Vec<usize>>)
    requires
        is_linear(tree@),
    ensures
        r@.len() == tree@.len(),
        forall|i: int, j: usize|
            0 <= i < tree@.len() ==> (#[trigger] r@[i]@.contains(j) <==> in_lifted_near_field(
                tree@,
                i,
                j as int,
            )),
        forall|i: int| 0 <= i < tree@.len() ==> (#[trigger] r@[i])@.no_duplicates(),
{
    let mut out: Vec<Vec<usize>> = Vec::new();
    let mut i: usize = 0;
    while i < tree.len()
        invariant
            i <= tree@.len(),
            is_linear(tree@),
            out@.len() == i,
            forall|a: int, j: usize|
                0 <= a < i ==> (#[trigger] out@[a]@.contains(j) <==> in_lifted_near_field(
                    tree@,
                    a,
                    j as int,
                )),
            forall|a: int| 0 <= a < i ==> (#[trigger] out@[a])@.no_duplicates(),
        decreases tree@.len() - i,
    {
        let row: Vec<usize> = near_field_of_leaf(tree, i);
        out.push(row);
        i = i + 1;
    }
    out
}

/// The interaction list of every leaf of a tree, leaf by leaf.
pub fn interaction_list_map(tree: &Vec<MortonKey>) -> (r: Vec<Vec<usize>>)
    requires
        is_linear(tree@),
    ensures
        r@.len() == tree@.len(),
        forall|i: int, j: usize|
            0 <= i < tree@.len() ==> (#[trigger] r@[i]@.contains(j) <==> in_lifted_interaction_list(
                tree@,
                i,
                j as int,
            )),
        forall|i: int| 0 <= i < tree@.len() ==> (#[trigger] r@[i])@.no_duplicates(),
{
    let mut out: Vec<Vec<usize>> = Vec::new();
    let mut i: usize = 0;
    while i < tree.len()
        invariant
            i <= tree@.len(),
            is_linear(tree@),
            out@.len() == i,
            forall|a: int, j: usize|
                0 <= a < i ==> (#[trigger] out@[a]@.contains(j) <==> in_lifted_interaction_list(
                    tree@,
                    a,
                    j as int,
                )),
            forall|a: int| 0 <= a < i ==> (#[trigger] out@[a])@.no_duplicates(),
        decreases tree@.len() - i,
    {
        let row: Vec<usize> = interaction_list_of_leaf(tree, i);
        out.push(row);
        i = i + 1;
    }
    out
}

/// For each point the index of the leaf that holds it.
pub fn assign_leaves(tree: &Vec<MortonKey>, points: &Vec<MortonKey>) -> (r: Vec<usize>)
    requires
        is_complete(tree@),
        all_wf(points@),
        forall|p: int| 0 <= p < points@.len() ==> (#[trigger] points@[p]).level_spec() == 16,
    ensures
        r@.len() == points@.len(),
        forall|p: int|
            0 <= p < points@.len() ==> (#[trigger] r@[p]) < tree@.len() && tree@[r@[p] as int].covers(
                points@[p],
            ),
{
    let mut out: Vec<usize> = Vec::new();
    let mut p: usize = 0;
    proof {
        crate::linear::lemma_tiles_linear(tree@, 0, crate::powers::eight_pow(16));
    }
    while p < points.len()
        invariant
            p <= points@.len(),
            is_complete(tree@),
            is_linear(tree@),
            all_wf(points@),
            forall|q: int| 0 <= q < points@.len() ==> (#[trigger] points@[q]).level_spec() == 16,
            out@.len() == p,
            forall|q: int|
                0 <= q < p ==> (#[trigger] out@[q]) < tree@.len() && tree@[out@[q] as int].covers(
                    points@[q],
                ),
        decreases points@.len() - p,
    {
        let key: MortonKey = points[p];
        let found: Option<usize> = find_leaf(tree, &key);
        proof {
            let j: int = lemma_complete_covers_once(tree@, key);
            assert(tree@[j].covers(key));
        }
        out.push(found.unwrap());
        p = p + 1;
    }
    out
}

/// `found` is the index of the leaf that contains the cell, or nothing where no
/// leaf contains it.
pub open spec fn locates(tree: Seq<MortonKey>, key: MortonKey, found: Option<usize>) -> bool {
    match found {
        Some(j) => j < tree.len() && tree[j as int].covers(key),
        None => forall|j: int| 0 <= j < tree.len() ==> !(#[trigger] tree[j]).covers(key),
    }
}

/// For each point the index of the leaf of a linear octree that holds it, if
/// there is one: the leaves of a block need not reach every point.
pub fn locate_points(tree: &Vec<MortonKey>, points: &Vec<MortonKey>) -> (r: Vec<Option<usize>>)
    requires
        is_linear(tree@),
        all_wf(points@),
    ensures
        r@.len() == points@.len(),
        forall|p: int| 0 <= p < points@.len() ==> locates(tree@, points@[p], #[trigger] r@[p]),
{
    let mut out: Vec<Option<usize>> = Vec::new();
    let mut p: usize = 0;
    while p < points.len()
        invariant
            p <= points@.len(),
            is_linear(tree@),
            all_wf(points@),
            out@.len() == p,
            forall|q: int| 0 <= q < p ==> locates(tree@, points@[q], #[trigger] out@[q]),
        decreases points@.len() - p,
    {
        let key: MortonKey = points[p];
        let found: Option<usize> = find_leaf(tree, &key);
        out.push(found);
        p = p + 1;
    }
    out
}

} // verus!
