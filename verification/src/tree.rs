//! Trees over points: points with their keys, and the tree of one process.

use vstd::prelude::*;
use crate::morton::{key_at, lemma_key_at, MortonKey, GRID_SIZE};
use crate::linear::{all_wf, is_complete, is_linear, is_sorted, linearized};
use crate::completion::{all_marked, complete_tree, completion_bound, holds_first};
use crate::balance::{balance_to_fixed_point, is_balanced, is_balanced_from};
use crate::relations::assign_leaves;
use crate::sorting::{merge_sort, pair_le, SortKey};

verus! {

/// A point: its place on the finest grid, its number among all points and the
/// key of the deepest cell that holds it.
#[derive(Clone, Copy, Debug)]
pub struct Point {
    /// The place of the point in steps along the three axes.
    pub anchor: [u64; 3],
    /// The number of the point among the points of all processes.
    pub global_index: u64,
    /// The key of the cell of the deepest level that holds the point.
    pub morton_key: MortonKey,
}

impl Point {
    /// The point lies on the grid and its key is that of its place.
    pub open spec fn wf(self) -> bool {
        &&& self.anchor[0] < GRID_SIZE
        &&& self.anchor[1] < GRID_SIZE
        &&& self.anchor[2] < GRID_SIZE
        &&& self.morton_key == key_at(
            self.anchor[0] as nat,
            self.anchor[1] as nat,
            self.anchor[2] as nat,
            16,
        )
    }

    /// The point at a place of the grid.
    pub fn new(anchor: [u64; 3], global_index: u64) -> (r: Point)
        requires
            anchor[0] < GRID_SIZE,
            anchor[1] < GRID_SIZE,
            anchor[2] < GRID_SIZE,
        ensures
            r.wf(),
            r.anchor == anchor,
            r.global_index == global_index,
    {
        Point { anchor, global_index, morton_key: MortonKey::from_anchor(anchor, 16) }
    }

    /// Whether the point lies on the grid and has the key of its place.
    pub fn is_valid(&self) -> (r: bool)
        ensures
            r == self.wf(),
    {
        if self.anchor[0] >= GRID_SIZE || self.anchor[1] >= GRID_SIZE || self.anchor[2]
            >= GRID_SIZE {
            return false;
        }
        let key: MortonKey = MortonKey::from_anchor(self.anchor, 16);
        key == self.morton_key
    }
}

/// The order of points: by key, and by number where the keys are equal.
pub open spec fn point_le(a: Point, b: Point) -> bool {
    a.morton_key.morton < b.morton_key.morton || (a.morton_key.morton == b.morton_key.morton
        && a.global_index <= b.global_index)
}

/// The points stand in their order.
pub open spec fn points_sorted(s: Seq<Point>) -> bool {
    forall|i: int, j: int| 0 <= i < j < s.len() ==> point_le(s[i], s[j])
}

/// Every point lies on the grid and has the key of its place.
pub open spec fn all_points_wf(s: Seq<Point>) -> bool {
    forall|i: int| 0 <= i < s.len() ==> (#[trigger] s[i]).wf()
}

/// The keys of the points, in order.
pub open spec fn keys_of(points: Seq<Point>) -> Seq<MortonKey> {
    Seq::new(points.len(), |i: int| points[i].morton_key)
}

impl SortKey for Point {
    open spec fn sort_key(&self) -> (u64, u64) {
        (self.morton_key.morton, self.global_index)
    }

    fn before(&self, other: &Self) -> (r: bool) {
        self.morton_key.morton < other.morton_key.morton || (self.morton_key.morton
            == other.morton_key.morton && self.global_index <= other.global_index)
    }
}

/// Sorts points by key, and by number where the keys are equal.
pub fn sort_points(points: Vec<Point>) -> (r: Vec<Point>)
    ensures
        points_sorted(r@),
        r@.to_multiset() == points@.to_multiset(),
        r@.len() == points@.len(),
        all_points_wf(points@) ==> all_points_wf(r@),
{
    let out: Vec<Point> = merge_sort(&points);
    proof {
        out@.to_multiset_ensures();
        points@.to_multiset_ensures();
        assert forall|i: int, j: int| 0 <= i < j < out@.len() implies point_le(
            out@[i],
            out@[j],
        ) by {
            assert(pair_le(out@[i].sort_key(), out@[j].sort_key()));
        }
        if all_points_wf(points@) {
            assert forall|i: int| 0 <= i < out@.len() implies (#[trigger] out@[i]).wf() by {
                assert(out@.contains(out@[i]));
                assert(out@.to_multiset().count(out@[i]) > 0);
                assert(points@.contains(out@[i]));
                let j: int = choose|j: int| 0 <= j < points@.len() && points@[j] == out@[i];
                assert(points@[j].wf());
            }
        }
    }
    out
}

/// The keys of the points, in order.
pub fn point_keys(points: &Vec<Point>) -> (r: Vec<MortonKey>)
    ensures
        r@ == keys_of(points@),
        all_points_wf(points@) ==> all_wf(r@) && forall|i: int|
            0 <= i < r@.len() ==> (#[trigger] r@[i]).level_spec() == 16,
        points_sorted(points@) ==> is_sorted(r@),
{
    let mut out: Vec<MortonKey> = Vec::new();
    let mut i: usize = 0;
    while i < points.len()
        invariant
            i <= points@.len(),
            out@.len() == i,
            forall|j: int| 0 <= j < i ==> out@[j] == points@[j].morton_key,
        decreases points@.len() - i,
    {
        out.push(points[i].morton_key);
        i = i + 1;
    }
    proof {
        assert(out@ =~= keys_of(points@));
        if all_points_wf(points@) {
            assert forall|j: int| 0 <= j < out@.len() implies (#[trigger] out@[j]).wf()
                && out@[j].level_spec() == 16 by {
                let p: Point = points@[j];
                assert(p.wf());
                lemma_key_at(p.anchor[0] as nat, p.anchor[1] as nat, p.anchor[2] as nat, 16);
            }
        }
        if points_sorted(points@) {
            assert forall|a: int, b: int| 0 <= a < b < out@.len() implies out@[a].morton
                <= out@[b].morton by {
                assert(point_le(points@[a], points@[b]));
            }
        }
    }
    out
}

/// `tree` is the completion of the keys `seeds`: a tree over the whole cube
/// that holds the keys that linearizing leaves of the seeds, and around them the
/// coarsest cells that fit.
pub open spec fn is_completion_of(tree: Seq<MortonKey>, seeds: Seq<MortonKey>) -> bool {
    &&& is_complete(tree)
    &&& holds_first(tree, linearized(seeds), linearized(seeds).len() as int)
    &&& all_marked(tree, linearized(seeds), 0, None)
}

/// In the completion of keys the key that starts the cube is the first leaf and
/// the key that ends it is the last: the tree over two points at opposite
/// corners of the cube runs from the key of the one to the key of the other,
/// and has the two keys and at most 216 cells between them.
pub proof fn lemma_completion_ends(tree: Seq<MortonKey>, seeds: Seq<MortonKey>)
    requires
        seeds.len() > 0,
        all_wf(seeds),
        is_sorted(seeds),
        is_completion_of(tree, seeds),
    ensures
        linearized(seeds).len() > 0,
        tree.len() > 0,
        linearized(seeds)[0].code() == 0 ==> tree[0] == linearized(seeds)[0],
        linearized(seeds)[linearized(seeds).len() - 1].end() == crate::powers::eight_pow(16)
            ==> tree[tree.len() - 1] == linearized(seeds)[linearized(seeds).len() - 1],
        linearized(seeds).len() == 2 && linearized(seeds)[0].code() == 0 && linearized(seeds)[1].end()
            == crate::powers::eight_pow(16) ==> completion_bound(linearized(seeds), 0, None)
            == 218,
{
    let l: Seq<MortonKey> = linearized(seeds);
    crate::linear::lemma_linearized_linear(seeds);
    crate::linear::lemma_tiles_linear(tree, 0, crate::powers::eight_pow(16));
    crate::powers::lemma_pow_values();
    let first: MortonKey = l[0];
    let last: MortonKey = l[l.len() - 1];
    assert(tree.contains(l[0]));
    assert(tree.contains(l[l.len() - 1]));
    let at: int = choose|at: int| 0 <= at < tree.len() && tree[at] == first;
    let to: int = choose|to: int| 0 <= to < tree.len() && tree[to] == last;
    crate::morton::lemma_width_positive(first);
    crate::morton::lemma_width_positive(last);
    if first.code() == 0 && at > 0 {
        crate::linear::lemma_linear_pair(tree, 0, at);
        crate::morton::lemma_width_positive(tree[0]);
    }
    if last.end() == crate::powers::eight_pow(16) && to < tree.len() - 1 {
        crate::linear::lemma_linear_pair(tree, to, tree.len() - 1);
        crate::morton::lemma_width_positive(tree[tree.len() - 1]);
    }
}

/// The completion of sorted keys, balanced if `balanced` is set.
fn tree_over(seeds: &Vec<MortonKey>, balanced: bool) -> (r: Vec<MortonKey>)
    requires
        seeds@.len() > 0,
        all_wf(seeds@),
        is_sorted(seeds@),
    ensures
        is_complete(r@),
        is_linear(r@),
        balanced ==> is_balanced(r@),
        !balanced ==> is_completion_of(r@, seeds@),
        !balanced ==> r@.len() <= completion_bound(linearized(seeds@), 0, None),
        balanced ==> exists|t: Seq<MortonKey>| #[trigger]
            is_completion_of(t, seeds@) && is_balanced_from(r@, t),
{
    let completed: Vec<MortonKey> = complete_tree(seeds);
    if balanced {
        let tree: Vec<MortonKey> = balance_to_fixed_point(&completed);
        proof {
            assert(is_completion_of(completed@, seeds@) && is_balanced_from(tree@, completed@));
        }
        tree
    } else {
        completed
    }
}

/// The tree of one process over its points.
pub struct LocalTree {
    /// The points, in their order.
    pub points: Vec<Point>,
    /// The leaves of the tree, in Morton order.
    pub keys: Vec<MortonKey>,
    /// For each point the index of the leaf that holds it.
    pub leaf_of_point: Vec<usize>,
    /// Whether the tree is 2:1 balanced.
    pub balanced: bool,
}

impl LocalTree {
    /// The leaves are a complete linear octree, the points stand in their order,
    /// each point lies in the leaf that is named for it, and the tree is balanced
    /// if it says so.
    pub open spec fn wf(self) -> bool {
        &&& all_points_wf(self.points@)
        &&& points_sorted(self.points@)
        &&& is_complete(self.keys@)
        &&& is_linear(self.keys@)
        &&& self.leaf_of_point@.len() == self.points@.len()
        &&& forall|p: int|
            0 <= p < self.points@.len() ==> (#[trigger] self.leaf_of_point@[p]) < self.keys@.len()
                && self.keys@[self.leaf_of_point@[p] as int].covers(self.points@[p].morton_key)
        &&& self.balanced ==> is_balanced(self.keys@)
    }

    /// The tree over the given points: the completion of their keys, balanced if
    /// `balanced` is set.
    pub fn new(points: Vec<Point>, balanced: bool) -> (r: LocalTree)
        requires
            points@.len() > 0,
            all_points_wf(points@),
        ensures
            r.wf(),
            r.balanced == balanced,
            r.points@.to_multiset() == points@.to_multiset(),
            !balanced ==> is_completion_of(r.keys@, keys_of(r.points@)),
            !balanced ==> r.keys@.len() <= completion_bound(
                linearized(keys_of(r.points@)),
                0,
                None,
            ),
            balanced ==> exists|t: Seq<MortonKey>| #[trigger]
                is_completion_of(t, keys_of(r.points@)) && is_balanced_from(r.keys@, t),
    {
        let sorted: Vec<Point> = sort_points(points);
        let seeds: Vec<MortonKey> = point_keys(&sorted);
        let keys: Vec<MortonKey> = tree_over(&seeds, balanced);
        let leaf_of_point: Vec<usize> = assign_leaves(&keys, &seeds);
        LocalTree { points: sorted, keys, leaf_of_point, balanced }
    }

    /// The number of leaves.
    pub fn nkeys(&self) -> (r: usize)
        ensures
            r == self.keys@.len(),
    {
        self.keys.len()
    }

    /// The number of points.
    pub fn npoints(&self) -> (r: usize)
        ensures
            r == self.points@.len(),
    {
        self.points.len()
    }
}

} // verus!
