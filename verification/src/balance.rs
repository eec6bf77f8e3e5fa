//! 2:1 balancing of linear octrees.
//!
//! A linear octree is balanced where every leaf that touches another leaf
//! differs from it by at most one level. One pass of balancing adds, from the
//! deepest level up, the parents of the neighbours of every key, linearizes
//! what it has, and completes it again. A tree that a pass leaves as it is, is
//! balanced.

use std::collections::HashSet;
use vstd::prelude::*;
use crate::powers::{eight_pow, lemma_pow_values};
use crate::morton::{
    lemma_covers_levels, lemma_overlap_nested, lemma_parent, lemma_width_positive, MortonKey,
};
use crate::linear::{
    all_wf, covered_by, is_complete, is_linear, is_sorted, lemma_complete_covers_once,
    lemma_linear_pair, lemma_linearized_survivor, lemma_refinement_length,
    lemma_refines_transitive, lemma_tiles_bounds, lemma_tiles_length, linearized, refines, tiles,
};
use crate::completion::{
    all_marked, block_end, complete_block, complete_tree, holds_first, inside,
};
use crate::partition::concat;
use crate::morton::CODE_LIMIT;
use crate::sorting::sort_keys;
use crate::octree::raw_key;

verus! {

/// Some neighbour of a key of `finer` has the parent `x`.
pub open spec fn pushed(x: MortonKey, finer: Set<MortonKey>) -> bool {
    exists|k: MortonKey, n: MortonKey|
        finer.contains(k) && #[trigger] n.is_neighbor_of(k) && n.parent_spec() == x
}

/// The keys of one level that a pass of balancing works with: the keys of the
/// tree at that level, and the parents of the neighbours of the keys that it
/// works with one level down.
pub open spec fn working_level(keys: Seq<MortonKey>, level: nat) -> Set<MortonKey>
    decreases 17 - level,
{
    if level >= 17 {
        Set::empty()
    } else {
        let finer: Set<MortonKey> = working_level(keys, level + 1);
        Set::new(|x: MortonKey| x.level_spec() == level && (keys.contains(x) || pushed(x, finer)))
    }
}

/// The key is one that a pass of balancing over `keys` works with.
pub open spec fn in_working_set(x: MortonKey, keys: Seq<MortonKey>) -> bool {
    working_level(keys, x.level_spec()).contains(x)
}

/// Every leaf is at most one level finer than any leaf that holds one of its neighbours.
pub open spec fn is_balanced(tree: Seq<MortonKey>) -> bool {
    forall|i: int, j: int, n: MortonKey|
        0 <= i < tree.len() && 0 <= j < tree.len() && #[trigger] n.is_neighbor_of(tree[i])
            && #[trigger] tree[j].covers(n) ==> tree[j].level_spec() + 1 >= tree[i].level_spec()
}

/// `tree` is what a pass of balancing makes of `keys`: the working set of the pass
/// in Morton order, linearized and completed.
pub open spec fn is_balance_pass(tree: Seq<MortonKey>, keys: Seq<MortonKey>) -> bool {
    exists|w: Seq<MortonKey>| #[trigger]
        is_sorted(w) && all_wf(w) && (forall|x: MortonKey|
            w.contains(x) <==> in_working_set(x, keys)) && holds_first(
            tree,
            linearized(w),
            linearized(w).len() as int,
        ) && all_marked(tree, linearized(w), 0, None)
}

/// A neighbour of a key of level `level` in `snap` has the parent `x`.
pub open spec fn pushed_from(x: MortonKey, snap: Seq<MortonKey>, level: nat) -> bool {
    exists|j: int, n: MortonKey|
        0 <= j < snap.len() && snap[j].level_spec() == level && #[trigger] n.is_neighbor_of(
            snap[j],
        ) && n.parent_spec() == x
}

/// What a pass holds when it has worked through the levels below `level`: the
/// keys of the tree, and of the working set the keys from `level` on.
pub open spec fn worked_down_to(work: Seq<MortonKey>, keys: Seq<MortonKey>, level: nat) -> bool {
    forall|x: MortonKey|
        work.contains(x) <==> (keys.contains(x) || (x.level_spec() >= level && in_working_set(
            x,
            keys,
        )))
}

/// The set of integers holds the integer values of the keys of the sequence.
pub open spec fn seen_matches(seen: Set<u64>, work: Seq<MortonKey>) -> bool {
    forall|x: u64| seen.contains(x) <==> work.contains(raw_key(x))
}

/// A key of the tree is in the working set of a pass.
pub proof fn lemma_keys_in_working_set(keys: Seq<MortonKey>, i: int)
    requires
        all_wf(keys),
        0 <= i < keys.len(),
    ensures
        in_working_set(keys[i], keys),
{
    assert(keys[i].wf());
    assert(keys.contains(keys[i]));
}

/// The parent of a neighbour of a key of the working set is in the working set.
pub proof fn lemma_push_in_working_set(keys: Seq<MortonKey>, k: MortonKey, n: MortonKey)
    requires
        in_working_set(k, keys),
        k.wf(),
        n.is_neighbor_of(k),
        k.level_spec() > 0,
    ensures
        in_working_set(n.parent_spec(), keys),
        n.parent_spec().level_spec() == k.level_spec() - 1,
{
    lemma_parent(n);
    let x: MortonKey = n.parent_spec();
    let finer: Set<MortonKey> = working_level(keys, k.level_spec());
    assert(finer.contains(k));
    assert(pushed(x, finer));
    assert(working_level(keys, x.level_spec()).contains(x));
}

/// A tree that holds, for every neighbour of a leaf, a key inside the parent of
/// that neighbour, is balanced: such is every tree that a pass of balancing
/// leaves as it is.
pub proof fn lemma_fixed_point_balanced(tree: Seq<MortonKey>, w: Seq<MortonKey>)
    requires
        is_linear(tree),
        all_wf(w),
        is_sorted(w),
        forall|x: MortonKey| w.contains(x) <==> in_working_set(x, tree),
        holds_first(tree, linearized(w), linearized(w).len() as int),
    ensures
        is_balanced(tree),
{
    assert forall|i: int, j: int, n: MortonKey|
        0 <= i < tree.len() && 0 <= j < tree.len() && #[trigger] n.is_neighbor_of(tree[i])
            && #[trigger] tree[j].covers(n) implies tree[j].level_spec() + 1
        >= tree[i].level_spec() by {
        let k: MortonKey = tree[i];
        let t: MortonKey = tree[j];
        if t.level_spec() + 1 < k.level_spec() {
            let p: MortonKey = n.parent_spec();
            lemma_parent(n);
            lemma_keys_in_working_set(tree, i);
            lemma_push_in_working_set(tree, k, n);
            assert(w.contains(p));
            let ip: int = choose|ip: int| 0 <= ip < w.len() && w[ip] == p;
            let s: MortonKey = lemma_linearized_survivor(w, ip);
            let l: Seq<MortonKey> = linearized(w);
            let il: int = choose|il: int| 0 <= il < l.len() && l[il] == s;
            assert(tree.contains(l[il]));
            let js: int = choose|js: int| 0 <= js < tree.len() && tree[js] == s;
            lemma_width_positive(n);
            lemma_width_positive(s);
            assert(t.overlaps(p));
            lemma_overlap_nested(t, p);
            assert(t.covers(s));
            lemma_covers_levels(p, s);
            if j < js {
                lemma_linear_pair(tree, j, js);
            } else if js < j {
                lemma_linear_pair(tree, js, j);
            }
            assert(false);
        }
    }
}

/// One level of a pass is worked through: the pass holds the working set one level further up.
proof fn lemma_level_step(
    keys: Seq<MortonKey>,
    snap: Seq<MortonKey>,
    work: Seq<MortonKey>,
    level: nat,
)
    requires
        1 <= level <= 16,
        all_wf(keys),
        all_wf(snap),
        worked_down_to(snap, keys, level),
        forall|x: MortonKey| work.contains(x) <==> (snap.contains(x) || pushed_from(x, snap, level)),
    ensures
        worked_down_to(work, keys, (level - 1) as nat),
{
    let lower: nat = (level - 1) as nat;
    assert forall|x: MortonKey|
        work.contains(x) <==> (keys.contains(x) || (x.level_spec() >= lower && in_working_set(
            x,
            keys,
        ))) by {
        if pushed_from(x, snap, level) {
            let (j, n) = choose|j: int, n: MortonKey|
                0 <= j < snap.len() && snap[j].level_spec() == level && #[trigger] n.is_neighbor_of(
                    snap[j],
                ) && n.parent_spec() == x;
            let k: MortonKey = snap[j];
            assert(snap.contains(k));
            if keys.contains(k) {
                assert(working_level(keys, level).contains(k));
            }
            assert(in_working_set(k, keys));
            lemma_push_in_working_set(keys, k, n);
        }
        if x.level_spec() == lower && in_working_set(x, keys) && !keys.contains(x) {
            let finer: Set<MortonKey> = working_level(keys, level);
            assert(pushed(x, finer));
            let (k, n) = choose|k: MortonKey, n: MortonKey|
                finer.contains(k) && #[trigger] n.is_neighbor_of(k) && n.parent_spec() == x;
            assert(k.level_spec() == level);
            assert(in_working_set(k, keys));
            assert(snap.contains(k));
            let j: int = choose|j: int| 0 <= j < snap.len() && snap[j] == k;
            assert(n.is_neighbor_of(snap[j]));
            assert(pushed_from(x, snap, level));
        }
    }
}

/// Some neighbour of `k` has the parent `x`.
pub open spec fn pushes(k: MortonKey, x: MortonKey) -> bool {
    exists|n: MortonKey| #[trigger] n.is_neighbor_of(k) && n.parent_spec() == x
}

/// A sequence with one more item holds what it held and that item.
proof fn lemma_push_contains(s: Seq<MortonKey>, v: MortonKey)
    ensures
        forall|x: MortonKey| #[trigger] s.push(v).contains(x) <==> (s.contains(x) || x == v),
{
    let t: Seq<MortonKey> = s.push(v);
    assert forall|x: MortonKey| #[trigger] t.contains(x) <==> (s.contains(x) || x == v) by {
        if t.contains(x) {
            let j: int = choose|j: int| 0 <= j < t.len() && t[j] == x;
            if j < s.len() {
                assert(s[j] == x);
            }
        }
        if s.contains(x) {
            let j: int = choose|j: int| 0 <= j < s.len() && s[j] == x;
            assert(t[j] == x);
        }
        if x == v {
            assert(t[s.len() as int] == x);
        }
    }
}

/// The parents of the neighbours of a key.
fn parents_of_neighbors(k: MortonKey) -> (r: Vec<MortonKey>)
    requires
        k.wf(),
        k.level_spec() > 0,
    ensures
        all_wf(r@),
        forall|x: MortonKey| #[trigger] r@.contains(x) <==> pushes(k, x),
{
    let near: Vec<MortonKey> = k.neighbors();
    let mut out: Vec<MortonKey> = Vec::new();
    let mut q: usize = 0;
    while q < near.len()
        invariant
            q <= near@.len(),
            k.wf(),
            k.level_spec() > 0,
            forall|n: MortonKey| near@.contains(n) <==> n.is_neighbor_of(k),
            all_wf(out@),
            out@.len() == q,
            forall|t: int| 0 <= t < q ==> out@[t] == (#[trigger] near@[t]).parent_spec(),
        decreases near@.len() - q,
    {
        let n: MortonKey = near[q];
        proof {
            assert(near@[q as int] == n);
            assert(near@.contains(n));
            assert(n.is_neighbor_of(k));
            lemma_parent(n);
        }
        let p: MortonKey = n.parent();
        out.push(p);
        q = q + 1;
    }
    proof {
        assert forall|x: MortonKey| out@.contains(x) <==> pushes(k, x) by {
            if out@.contains(x) {
                let t: int = choose|t: int| 0 <= t < out@.len() && out@[t] == x;
                assert(near@.contains(near@[t]));
                assert(near@[t].is_neighbor_of(k));
            }
            if pushes(k, x) {
                let n: MortonKey = choose|n: MortonKey| #[trigger]
                    n.is_neighbor_of(k) && n.parent_spec() == x;
                assert(near@.contains(n));
                let t: int = choose|t: int| 0 <= t < near@.len() && near@[t] == n;
                assert(out@[t] == x);
            }
        }
    }
    out
}

/// Adds to `work` the keys of `items` that it does not hold yet.
fn add_missing(work: &mut Vec<MortonKey>, seen: &mut HashSet<u64>, items: &Vec<MortonKey>)
    requires
        all_wf(old(work)@),
        all_wf(items@),
        seen_matches(old(seen)@, old(work)@),
    ensures
        all_wf(final(work)@),
        seen_matches(final(seen)@, final(work)@),
        final(work)@.len() >= old(work)@.len(),
        final(work)@.take(old(work)@.len() as int) == old(work)@,
        forall|x: MortonKey| #[trigger]
            final(work)@.contains(x) <==> (old(work)@.contains(x) || items@.contains(x)),
{
    broadcast use vstd::std_specs::hash::group_hash_axioms;

    let ghost start: Seq<MortonKey> = work@;
    let mut q: usize = 0;
    proof {
        assert(work@.take(start.len() as int) =~= start);
        assert(items@.take(0).len() == 0);
    }
    while q < items.len()
        invariant
            q <= items@.len(),
            all_wf(items@),
            all_wf(work@),
            seen_matches(seen@, work@),
            work@.len() >= start.len(),
            work@.take(start.len() as int) == start,
            forall|x: MortonKey| #[trigger]
                work@.contains(x) <==> (start.contains(x) || items@.take(q as int).contains(x)),
        decreases items@.len() - q,
    {
        let p: MortonKey = items[q];
        let ghost before: Seq<MortonKey> = work@;
        let ghost seen_before: Set<u64> = seen@;
        proof {
            assert(raw_key(p.morton) == p);
            assert(items@.take(q + 1) =~= items@.take(q as int).push(p));
            lemma_push_contains(items@.take(q as int), p);
            lemma_push_contains(before, p);
        }
        if !seen.contains(&p.morton) {
            seen.insert(p.morton);
            work.push(p);
            proof {
                assert(work@.take(start.len() as int) =~= before.take(start.len() as int));
                assert forall|x: u64| seen@.contains(x) <==> work@.contains(raw_key(x)) by {
                    assert(seen_before.contains(x) <==> before.contains(raw_key(x)));
                    assert(raw_key(x) == p <==> x == p.morton);
                }
                assert forall|i: int| 0 <= i < work@.len() implies (#[trigger] work@[i]).wf() by {
                    if i < before.len() {
                        assert(work@[i] == before[i]);
                    }
                }
                assert(work@ == before.push(p));
            }
        } else {
            proof {
                assert(before.contains(raw_key(p.morton)));
            }
        }
        proof {
            let shorter: Seq<MortonKey> = items@.take(q as int);
            let longer: Seq<MortonKey> = items@.take(q + 1);
            assert forall|x: MortonKey|
                work@.contains(x) <==> (start.contains(x) || longer.contains(x)) by {
                assert(before.contains(x) <==> (start.contains(x) || shorter.contains(x)));
                assert(longer.contains(x) <==> (shorter.contains(x) || x == p));
                assert(shorter.push(p).contains(x) <==> (shorter.contains(x) || x == p));
                if work@ == before.push(p) {
                    assert(before.push(p).contains(x) <==> (before.contains(x) || x == p));
                }
            }
        }
        q = q + 1;
    }
    proof {
        let whole: Seq<MortonKey> = items@.take(q as int);
        assert(whole =~= items@);
        assert forall|x: MortonKey| #[trigger]
            work@.contains(x) <==> (start.contains(x) || items@.contains(x)) by {
            assert(work@.contains(x) <==> (start.contains(x) || whole.contains(x)));
        }
    }
}

/// The parents that the first `idx + 1` keys push are those that the first
/// `idx` push and those that the key at `idx` pushes.
proof fn lemma_pushed_prefix(snap: Seq<MortonKey>, idx: int, level: nat)
    requires
        0 <= idx < snap.len(),
    ensures
        forall|x: MortonKey| #[trigger]
            pushed_from(x, snap.take(idx + 1), level) <==> (pushed_from(x, snap.take(idx), level)
                || (snap[idx].level_spec() == level && pushes(snap[idx], x))),
{
    let shorter: Seq<MortonKey> = snap.take(idx);
    let longer: Seq<MortonKey> = snap.take(idx + 1);
    let k: MortonKey = snap[idx];
    assert forall|x: MortonKey| #[trigger]
        pushed_from(x, longer, level) <==> (pushed_from(x, shorter, level) || (k.level_spec()
            == level && pushes(k, x))) by {
        if pushed_from(x, shorter, level) {
            let (j, n) = choose|j: int, n: MortonKey|
                0 <= j < shorter.len() && shorter[j].level_spec() == level
                    && #[trigger] n.is_neighbor_of(shorter[j]) && n.parent_spec() == x;
            assert(longer[j] == shorter[j]);
            assert(n.is_neighbor_of(longer[j]));
        }
        if pushed_from(x, longer, level) {
            let (j, n) = choose|j: int, n: MortonKey|
                0 <= j < longer.len() && longer[j].level_spec() == level
                    && #[trigger] n.is_neighbor_of(longer[j]) && n.parent_spec() == x;
            if j < idx {
                assert(shorter[j] == longer[j]);
                assert(n.is_neighbor_of(shorter[j]));
            } else {
                assert(longer[j] == k);
                assert(n.is_neighbor_of(k));
            }
        }
        if k.level_spec() == level && pushes(k, x) {
            let n: MortonKey = choose|n: MortonKey| #[trigger]
                n.is_neighbor_of(k) && n.parent_spec() == x;
            assert(longer[idx] == k);
            assert(n.is_neighbor_of(longer[idx]));
        }
    }
}

/// Adds the parents of the neighbours of `k`, if `k` is of the given level.
fn visit(k: MortonKey, level: u64, work: &mut Vec<MortonKey>, seen: &mut HashSet<u64>)
    requires
        k.wf(),
        1 <= level <= 16,
        all_wf(old(work)@),
        seen_matches(old(seen)@, old(work)@),
    ensures
        all_wf(final(work)@),
        seen_matches(final(seen)@, final(work)@),
        final(work)@.len() >= old(work)@.len(),
        final(work)@.take(old(work)@.len() as int) == old(work)@,
        forall|x: MortonKey| #[trigger]
            final(work)@.contains(x) <==> (old(work)@.contains(x) || (k.level_spec() == level
                && pushes(k, x))),
{
    if k.level() == level {
        let items: Vec<MortonKey> = parents_of_neighbors(k);
        add_missing(work, seen, &items);
    } else {
        proof {
            assert(work@.take(work@.len() as int) =~= work@);
        }
    }
}

/// What a level of a pass holds after one more key of the level has been visited.
proof fn lemma_visit_step(
    snap: Seq<MortonKey>,
    idx: int,
    level: nat,
    before: Seq<MortonKey>,
    after: Seq<MortonKey>,
)
    requires
        0 <= idx < snap.len(),
        forall|x: MortonKey|
            before.contains(x) <==> (snap.contains(x) || pushed_from(x, snap.take(idx), level)),
        forall|x: MortonKey|
            after.contains(x) <==> (before.contains(x) || (snap[idx].level_spec() == level
                && pushes(snap[idx], x))),
    ensures
        forall|x: MortonKey|
            after.contains(x) <==> (snap.contains(x) || pushed_from(x, snap.take(idx + 1), level)),
{
    lemma_pushed_prefix(snap, idx, level);
    assert forall|x: MortonKey|
        after.contains(x) <==> (snap.contains(x) || pushed_from(x, snap.take(idx + 1), level)) by {
        assert(before.contains(x) <==> (snap.contains(x) || pushed_from(x, snap.take(idx), level)));
        assert(pushed_from(x, snap.take(idx + 1), level) <==> (pushed_from(
            x,
            snap.take(idx),
            level,
        ) || (snap[idx].level_spec() == level && pushes(snap[idx], x))));
    }
}

/// Works through one level of a pass: adds the parents of the neighbours of every
/// key of that level.
fn balance_level(level: u64, work: &mut Vec<MortonKey>, seen: &mut HashSet<u64>)
    requires
        1 <= level <= 16,
        all_wf(old(work)@),
        seen_matches(old(seen)@, old(work)@),
    ensures
        all_wf(final(work)@),
        seen_matches(final(seen)@, final(work)@),
        forall|x: MortonKey| #[trigger]
            final(work)@.contains(x) <==> (old(work)@.contains(x) || pushed_from(
                x,
                old(work)@,
                level as nat,
            )),
{
    let ghost snap: Seq<MortonKey> = work@;
    let count: usize = work.len();
    let mut idx: usize = 0;
    proof {
        assert(work@.take(count as int) =~= snap);
        assert forall|x: MortonKey| !pushed_from(x, snap.take(0), level as nat) by {
            assert(snap.take(0).len() == 0);
        }
    }
    while idx < count
        invariant
            idx <= count,
            count == snap.len(),
            1 <= level <= 16,
            all_wf(work@),
            seen_matches(seen@, work@),
            work@.len() >= count,
            work@.take(count as int) == snap,
            forall|x: MortonKey|
                work@.contains(x) <==> (snap.contains(x) || pushed_from(
                    x,
                    snap.take(idx as int),
                    level as nat,
                )),
        decreases count - idx,
    {
        let k: MortonKey = work[idx];
        let ghost before: Seq<MortonKey> = work@;
        proof {
            assert(work@.take(count as int)[idx as int] == snap[idx as int]);
            assert(k == snap[idx as int]);
            assert(k.wf());
        }
        visit(k, level, work, seen);
        proof {
            assert(work@.take(count as int) =~= work@.take(before.len() as int).take(
                count as int,
            ));
            let now: Seq<MortonKey> = work@;
            let at: int = idx as int;
            let lv: nat = level as nat;
            assert(snap[at] == k);
            assert forall|x: MortonKey|
                now.contains(x) <==> (before.contains(x) || (snap[at].level_spec() == lv && pushes(
                    snap[at],
                    x,
                ))) by {
                assert(now.contains(x) <==> (before.contains(x) || (k.level_spec() == level
                    && pushes(k, x))));
            }
            lemma_visit_step(snap, at, lv, before, now);
        }
        idx = idx + 1;
    }
    proof {
        assert(snap.take(count as int) =~= snap);
    }
}

/// The keys that a pass of balancing over `keys` works with, in no given order.
pub fn working_set(keys: &Vec<MortonKey>) -> (r: Vec<MortonKey>)
    requires
        all_wf(keys@),
    ensures
        all_wf(r@),
        forall|x: MortonKey| #[trigger] r@.contains(x) <==> in_working_set(x, keys@),
    {
    broadcast use vstd::std_specs::hash::group_hash_axioms;

    let mut work: Vec<MortonKey> = Vec::new();
    let mut seen: HashSet<u64> = HashSet::new();
    let mut i: usize = 0;
    while i < keys.len()
        invariant
            i <= keys@.len(),
            all_wf(keys@),
            all_wf(work@),
            seen_matches(seen@, work@),
            forall|x: MortonKey| #[trigger] work@.contains(x) <==> keys@.take(i as int).contains(x),
        decreases keys@.len() - i,
    {
        let k: MortonKey = keys[i];
        let ghost before: Seq<MortonKey> = work@;
        let ghost seen_before: Set<u64> = seen@;
        proof {
            assert(keys@.take(i + 1) =~= keys@.take(i as int).push(k));
            lemma_push_contains(keys@.take(i as int), k);
            lemma_push_contains(before, k);
            assert(raw_key(k.morton) == k);
        }
        if !seen.contains(&k.morton) {
            seen.insert(k.morton);
            work.push(k);
            proof {
                assert forall|x: u64| seen@.contains(x) <==> work@.contains(raw_key(x)) by {
                    assert(seen_before.contains(x) <==> before.contains(raw_key(x)));
                    assert(raw_key(x) == k <==> x == k.morton);
                }
                assert forall|j: int| 0 <= j < work@.len() implies (#[trigger] work@[j]).wf() by {
                    if j < before.len() {
                        assert(work@[j] == before[j]);
                    }
                }
            }
        } else {
            proof {
                assert(before.contains(raw_key(k.morton)));
            }
        }
        proof {
            let shorter: Seq<MortonKey> = keys@.take(i as int);
            let longer: Seq<MortonKey> = keys@.take(i + 1);
            assert forall|x: MortonKey| #[trigger] work@.contains(x) <==> longer.contains(x) by {
                assert(before.contains(x) <==> shorter.contains(x));
                assert(shorter.push(k).contains(x) <==> (shorter.contains(x) || x == k));
                if work@ == before.push(k) {
                    assert(before.push(k).contains(x) <==> (before.contains(x) || x == k));
                }
            }
        }
        i = i + 1;
    }
    proof {
        assert(keys@.take(keys@.len() as int) =~= keys@);
        assert(worked_down_to(work@, keys@, 16)) by {
            assert forall|x: MortonKey|
                work@.contains(x) <==> (keys@.contains(x) || (x.level_spec() >= 16
                    && in_working_set(x, keys@))) by {
                if x.level_spec() >= 16 && in_working_set(x, keys@) {
                    assert(x.level_spec() == 16);
                    let finer: Set<MortonKey> = working_level(keys@, 17);
                    assert(finer == Set::<MortonKey>::empty());
                    assert(!pushed(x, finer));
                }
            }
        }
    }
    let mut level: u64 = 16;
    while level > 0
        invariant
            level <= 16,
            all_wf(keys@),
            all_wf(work@),
            seen_matches(seen@, work@),
            worked_down_to(work@, keys@, level as nat),
        decreases level,
    {
        let ghost snap: Seq<MortonKey> = work@;
        balance_level(level, &mut work, &mut seen);
        proof {
            lemma_level_step(keys@, snap, work@, level as nat);
        }
        level = level - 1;
    }
    proof {
        assert forall|x: MortonKey| #[trigger] work@.contains(x) <==> in_working_set(x, keys@) by {
            if keys@.contains(x) {
                let j: int = choose|j: int| 0 <= j < keys@.len() && keys@[j] == x;
                lemma_keys_in_working_set(keys@, j);
            }
        }
    }
    work
}

/// One pass of 2:1 balancing over a tree: adds, from the deepest level up, the
/// parents of the neighbours of every key, linearizes the keys and completes
/// them to a tree over the whole cube.
pub fn balance(keys: &Vec<MortonKey>) -> (r: Vec<MortonKey>)
    requires
        keys@.len() > 0,
        all_wf(keys@),
    ensures
        is_complete(r@),
        is_linear(r@),
        is_balance_pass(r@, keys@),
        r@ == keys@ ==> is_balanced(r@),
{
    let work: Vec<MortonKey> = working_set(keys);
    proof {
        assert(work@.len() > 0) by {
            lemma_keys_in_working_set(keys@, 0);
            assert(work@.contains(keys@[0]));
        }
    }
    let sorted: Vec<MortonKey> = sort_keys(work);
    let tree: Vec<MortonKey> = complete_tree(&sorted);
    proof {
        let w: Seq<MortonKey> = sorted@;
        assert(is_sorted(w) && all_wf(w) && (forall|x: MortonKey|
            w.contains(x) <==> in_working_set(x, keys@)) && holds_first(
            tree@,
            linearized(w),
            linearized(w).len() as int,
        ) && all_marked(tree@, linearized(w), 0, None));
        if tree@ == keys@ {
            lemma_fixed_point_balanced(tree@, w);
        }
    }
    tree
}

/// What a pass of balancing makes of a complete tree refines that tree.
pub proof fn lemma_pass_refines(keys: Seq<MortonKey>, tree: Seq<MortonKey>, w: Seq<MortonKey>)
    requires
        is_complete(keys),
        is_linear(tree),
        all_wf(w),
        is_sorted(w),
        forall|x: MortonKey| w.contains(x) <==> in_working_set(x, keys),
        holds_first(tree, linearized(w), linearized(w).len() as int),
    ensures
        refines(tree, keys),
{
    assert forall|j: int| 0 <= j < tree.len() implies covered_by(#[trigger] tree[j], keys) by {
        let f: MortonKey = tree[j];
        let i: int = lemma_complete_covers_once(keys, f);
        let t: MortonKey = keys[i];
        lemma_overlap_nested(t, f);
        if !t.covers(f) {
            assert(f.covers(t));
            lemma_covers_levels(f, t);
            lemma_keys_in_working_set(keys, i);
            assert(w.contains(t));
            let iw: int = choose|iw: int| 0 <= iw < w.len() && w[iw] == t;
            let s: MortonKey = lemma_linearized_survivor(w, iw);
            let l: Seq<MortonKey> = linearized(w);
            let il: int = choose|il: int| 0 <= il < l.len() && l[il] == s;
            assert(tree.contains(l[il]));
            let js: int = choose|js: int| 0 <= js < tree.len() && tree[js] == s;
            lemma_covers_levels(t, s);
            lemma_width_positive(s);
            assert(f.covers(s));
            if j < js {
                lemma_linear_pair(tree, j, js);
            } else if js < j {
                lemma_linear_pair(tree, js, j);
            }
            assert(false);
        }
    }
}

/// A pass of balancing is determined by what is stated of it: two complete
/// trees that are both what a pass makes of the same keys are the same.
pub proof fn lemma_balance_pass_unique(a: Seq<MortonKey>, b: Seq<MortonKey>, keys: Seq<MortonKey>)
    requires
        is_complete(a),
        is_complete(b),
        is_balance_pass(a, keys),
        is_balance_pass(b, keys),
    ensures
        a == b,
{
    let wa: Seq<MortonKey> = choose|w: Seq<MortonKey>| #[trigger]
        is_sorted(w) && all_wf(w) && (forall|x: MortonKey|
            w.contains(x) <==> in_working_set(x, keys)) && holds_first(
            a,
            linearized(w),
            linearized(w).len() as int,
        ) && all_marked(a, linearized(w), 0, None);
    let wb: Seq<MortonKey> = choose|w: Seq<MortonKey>| #[trigger]
        is_sorted(w) && all_wf(w) && (forall|x: MortonKey|
            w.contains(x) <==> in_working_set(x, keys)) && holds_first(
            b,
            linearized(w),
            linearized(w).len() as int,
        ) && all_marked(b, linearized(w), 0, None);
    assert forall|x: MortonKey| wa.contains(x) <==> wb.contains(x) by {
        assert(wa.contains(x) <==> in_working_set(x, keys));
        assert(wb.contains(x) <==> in_working_set(x, keys));
    }
    crate::linear::lemma_linearized_same_set(wa, wb);
    crate::linear::lemma_linearized_linear(wa);
    lemma_pow_values();
    crate::completion::lemma_completion_unique(a, b, linearized(wa), 0, None);
}

/// Whether two lists hold the same keys in the same order.
pub fn same_keys(a: &Vec<MortonKey>, b: &Vec<MortonKey>) -> (r: bool)
    ensures
        r == (a@ == b@),
{
    if a.len() != b.len() {
        return false;
    }
    let mut i: usize = 0;
    while i < a.len()
        invariant
            i <= a@.len(),
            a@.len() == b@.len(),
            forall|j: int| 0 <= j < i ==> a@[j] == b@[j],
        decreases a@.len() - i,
    {
        if a[i] != b[i] {
            return false;
        }
        i = i + 1;
    }
    proof {
        assert(a@ =~= b@);
    }
    true
}

/// The tree at `i + 1` is what a pass of balancing makes of the tree at `i`, and
/// is not that tree.
pub open spec fn is_pass_link(chain: Seq<Seq<MortonKey>>, i: int) -> bool {
    is_complete(chain[i + 1]) && is_balance_pass(chain[i + 1], chain[i]) && chain[i + 1] != chain[i]
}

/// `tree` is what repeated passes of balancing make of `keys`: the first tree
/// in the row of passes from `keys` on that a pass leaves as it is.
pub open spec fn is_balanced_from(tree: Seq<MortonKey>, keys: Seq<MortonKey>) -> bool {
    &&& is_balance_pass(tree, tree)
    &&& exists|chain: Seq<Seq<MortonKey>>|
        chain.len() >= 1 && chain[0] == keys && #[trigger] chain[chain.len() - 1] == tree && forall|
            i: int,
        | 0 <= i < chain.len() - 1 ==> #[trigger] is_pass_link(chain, i)
}

/// Balances a complete tree: runs passes of balancing until a pass leaves
/// the tree as it is. The result is a complete, balanced tree that refines the
/// given one.
pub fn balance_to_fixed_point(keys: &Vec<MortonKey>) -> (r: Vec<MortonKey>)
    requires
        is_complete(keys@),
    ensures
        is_complete(r@),
        is_linear(r@),
        is_balanced(r@),
        refines(r@, keys@),
        is_balanced_from(r@, keys@),
{
    proof {
        lemma_pow_values();
    }
    let mut tree: Vec<MortonKey> = balance(keys);
    let ghost mut chain: Seq<Seq<MortonKey>> = seq![keys@];
    proof {
        lemma_tiles_length(keys@, 0, eight_pow(16));
        let w: Seq<MortonKey> = choose|w: Seq<MortonKey>| #[trigger]
            is_sorted(w) && all_wf(w) && (forall|x: MortonKey|
                w.contains(x) <==> in_working_set(x, keys@)) && holds_first(
                tree@,
                linearized(w),
                linearized(w).len() as int,
            ) && all_marked(tree@, linearized(w), 0, None);
        lemma_pass_refines(keys@, tree@, w);
        if tree@ != keys@ {
            chain = chain.push(tree@);
            assert(is_pass_link(chain, 0));
        }
    }
    loop
        invariant
            is_complete(tree@),
            is_linear(tree@),
            refines(tree@, keys@),
            eight_pow(16) == 0x1_0000_0000_0000,
            chain.len() >= 1,
            chain[0] == keys@,
            chain[chain.len() - 1] == tree@,
            forall|i: int| 0 <= i < chain.len() - 1 ==> #[trigger] is_pass_link(chain, i),
        decreases 0x1_0000_0000_0000 - tree@.len(),
    {
        proof {
            lemma_tiles_length(tree@, 0, eight_pow(16));
        }
        let next: Vec<MortonKey> = balance(&tree);
        proof {
            let w: Seq<MortonKey> = choose|w: Seq<MortonKey>| #[trigger]
                is_sorted(w) && all_wf(w) && (forall|x: MortonKey|
                    w.contains(x) <==> in_working_set(x, tree@)) && holds_first(
                    next@,
                    linearized(w),
                    linearized(w).len() as int,
                ) && all_marked(next@, linearized(w), 0, None);
            lemma_pass_refines(tree@, next@, w);
            lemma_refinement_length(next@, tree@, 0, eight_pow(16));
            lemma_refines_transitive(next@, tree@, keys@);
            lemma_tiles_length(next@, 0, eight_pow(16));
        }
        if same_keys(&next, &tree) {
            return next;
        }
        proof {
            let longer: Seq<Seq<MortonKey>> = chain.push(next@);
            assert forall|i: int| 0 <= i < longer.len() - 1 implies #[trigger] is_pass_link(
                longer,
                i,
            ) by {
                if i < chain.len() - 1 {
                    assert(is_pass_link(chain, i));
                    assert(longer[i] == chain[i]);
                    assert(longer[i + 1] == chain[i + 1]);
                } else {
                    assert(longer[i] == tree@);
                    assert(longer[i + 1] == next@);
                }
            }
            chain = longer;
        }
        tree = next;
    }
}

/// Repeated passes of balancing are determined by what is stated of them: two
/// trees that are both what repeated passes make of the same keys are the same.
pub proof fn lemma_balanced_from_unique(a: Seq<MortonKey>, b: Seq<MortonKey>, keys: Seq<MortonKey>)
    requires
        is_complete(a),
        is_complete(b),
        is_balanced_from(a, keys),
        is_balanced_from(b, keys),
    ensures
        a == b,
{
    let ca: Seq<Seq<MortonKey>> = choose|chain: Seq<Seq<MortonKey>>|
        chain.len() >= 1 && chain[0] == keys && #[trigger] chain[chain.len() - 1] == a && forall|
            i: int,
        | 0 <= i < chain.len() - 1 ==> #[trigger] is_pass_link(chain, i);
    let cb: Seq<Seq<MortonKey>> = choose|chain: Seq<Seq<MortonKey>>|
        chain.len() >= 1 && chain[0] == keys && #[trigger] chain[chain.len() - 1] == b && forall|
            i: int,
        | 0 <= i < chain.len() - 1 ==> #[trigger] is_pass_link(chain, i);
    if ca.len() <= cb.len() {
        lemma_chains_agree(ca, cb, ca.len() - 1);
        if ca.len() < cb.len() {
            assert(is_pass_link(cb, ca.len() - 1));
            lemma_balance_pass_unique(a, cb[ca.len() as int], a);
        }
    } else {
        lemma_chains_agree(cb, ca, cb.len() - 1);
        assert(is_pass_link(ca, cb.len() - 1));
        lemma_balance_pass_unique(b, ca[cb.len() as int], b);
    }
}

/// Two rows of passes from the same keys hold the same trees as far as both reach.
proof fn lemma_chains_agree(short: Seq<Seq<MortonKey>>, long: Seq<Seq<MortonKey>>, i: int)
    requires
        short.len() >= 1,
        short.len() <= long.len(),
        short[0] == long[0],
        forall|j: int| 0 <= j < short.len() - 1 ==> #[trigger] is_pass_link(short, j),
        forall|j: int| 0 <= j < long.len() - 1 ==> #[trigger] is_pass_link(long, j),
        0 <= i < short.len(),
    ensures
        short[i] == long[i],
    decreases i,
{
    if i > 0 {
        lemma_chains_agree(short, long, i - 1);
        assert(is_pass_link(short, i - 1));
        assert(is_pass_link(long, i - 1));
        lemma_balance_pass_unique(short[i], long[i], short[i - 1]);
    }
}

/// The keys that a pass of balancing over a block works with: the working set
/// of the keys of the block, and the keys that other blocks have sent.
pub open spec fn block_seeds(keys: Seq<MortonKey>, extra: Seq<MortonKey>) -> Set<MortonKey> {
    Set::new(|x: MortonKey| in_working_set(x, keys) || extra.contains(x))
}

/// No leaf of the block is coarser than a key of `pushed` that it contains and
/// that lies in the range of the block.
pub open spec fn block_settled(
    block: Seq<MortonKey>,
    lo: nat,
    hi: nat,
    pushed: Set<MortonKey>,
) -> bool {
    forall|x: MortonKey, j: int|
        pushed.contains(x) && inside(x, lo, hi) && 0 <= j < block.len() && #[trigger] block[j].covers(
            x,
        ) ==> block[j].level_spec() >= x.level_spec()
}

/// `tree` is what a pass of balancing makes of the block `keys` and the keys
/// `extra` that were sent to it: the keys that the pass works with and that lie
/// in the range of the block, in Morton order, linearized and completed.
pub open spec fn is_block_pass(
    tree: Seq<MortonKey>,
    keys: Seq<MortonKey>,
    extra: Seq<MortonKey>,
    lower: nat,
    next: Option<MortonKey>,
) -> bool {
    exists|w: Seq<MortonKey>| #[trigger]
        is_sorted(w) && all_wf(w) && (forall|x: MortonKey|
            w.contains(x) <==> (block_seeds(keys, extra).contains(x) && inside(
                x,
                lower,
                block_end(next),
            ))) && holds_first(tree, linearized(w), linearized(w).len() as int) && all_marked(
            tree,
            linearized(w),
            lower,
            next,
        )
}

/// A pass of balancing over a block is determined by what is stated of it: two
/// tilings of the range of the block that are both what a pass makes of the
/// same keys are the same.
pub proof fn lemma_block_pass_unique(
    a: Seq<MortonKey>,
    b: Seq<MortonKey>,
    keys: Seq<MortonKey>,
    extra: Seq<MortonKey>,
    lower: nat,
    next: Option<MortonKey>,
)
    requires
        next.is_some() ==> next.unwrap().wf(),
        tiles(a, lower, block_end(next)),
        tiles(b, lower, block_end(next)),
        is_block_pass(a, keys, extra, lower, next),
        is_block_pass(b, keys, extra, lower, next),
    ensures
        a == b,
{
    let wa: Seq<MortonKey> = choose|w: Seq<MortonKey>| #[trigger]
        is_sorted(w) && all_wf(w) && (forall|x: MortonKey|
            w.contains(x) <==> (block_seeds(keys, extra).contains(x) && inside(
                x,
                lower,
                block_end(next),
            ))) && holds_first(a, linearized(w), linearized(w).len() as int) && all_marked(
            a,
            linearized(w),
            lower,
            next,
        );
    let wb: Seq<MortonKey> = choose|w: Seq<MortonKey>| #[trigger]
        is_sorted(w) && all_wf(w) && (forall|x: MortonKey|
            w.contains(x) <==> (block_seeds(keys, extra).contains(x) && inside(
                x,
                lower,
                block_end(next),
            ))) && holds_first(b, linearized(w), linearized(w).len() as int) && all_marked(
            b,
            linearized(w),
            lower,
            next,
        );
    assert forall|x: MortonKey| wa.contains(x) <==> wb.contains(x) by {
        assert(wa.contains(x) <==> (block_seeds(keys, extra).contains(x) && inside(
            x,
            lower,
            block_end(next),
        )));
        assert(wb.contains(x) <==> (block_seeds(keys, extra).contains(x) && inside(
            x,
            lower,
            block_end(next),
        )));
    }
    crate::linear::lemma_linearized_same_set(wa, wb);
    crate::linear::lemma_linearized_linear(wa);
    crate::completion::lemma_completion_unique(a, b, linearized(wa), lower, next);
}

/// What a pass of balancing over a block gives.
pub struct BlockPass {
    /// The block after the pass.
    pub tree: Vec<MortonKey>,
    /// The keys of the working set that do not lie in the range of the block:
    /// they are for the blocks in whose range they lie.
    pub outgoing: Vec<MortonKey>,
    /// Whether the pass has changed the block.
    pub changed: bool,
}

/// Whether the cell lies within the codes from `lo` up to `hi`.
fn lies_inside(k: &MortonKey, lo: u64, hi: u64) -> (r: bool)
    requires
        k.wf(),
    ensures
        r == inside(*k, lo as nat, hi as nat),
{
    lo <= k.position() && k.position_end() <= hi
}

/// No leaf of a block is coarser than a seed of the block that it contains.
proof fn lemma_seeds_settled(tree: Seq<MortonKey>, w: Seq<MortonKey>, x: MortonKey, j: int)
    requires
        is_linear(tree),
        all_wf(w),
        is_sorted(w),
        holds_first(tree, linearized(w), linearized(w).len() as int),
        w.contains(x),
        0 <= j < tree.len(),
        tree[j].covers(x),
    ensures
        tree[j].level_spec() >= x.level_spec(),
{
    let iw: int = choose|iw: int| 0 <= iw < w.len() && w[iw] == x;
    let s: MortonKey = lemma_linearized_survivor(w, iw);
    let l: Seq<MortonKey> = linearized(w);
    let il: int = choose|il: int| 0 <= il < l.len() && l[il] == s;
    assert(tree.contains(l[il]));
    let js: int = choose|js: int| 0 <= js < tree.len() && tree[js] == s;
    lemma_width_positive(s);
    assert(tree[j].covers(s));
    if j < js {
        lemma_linear_pair(tree, j, js);
    } else if js < j {
        lemma_linear_pair(tree, js, j);
    }
    lemma_covers_levels(x, s);
}

/// One pass of 2:1 balancing over a block of a distributed tree: works out the
/// working set of the keys of the block, takes the keys of it and of `extra`
/// that lie in the range of the block, linearizes them and completes the block
/// again. The keys of the working set that lie elsewhere are handed out.
pub fn balance_block(
    keys: &Vec<MortonKey>,
    extra: &Vec<MortonKey>,
    lower: u64,
    next: Option<MortonKey>,
) -> (r: BlockPass)
    requires
        keys@.len() > 0,
        tiles(keys@, lower as nat, block_end(next)),
        all_wf(extra@),
        next.is_some() ==> next.unwrap().wf(),
    ensures
        tiles(r.tree@, lower as nat, block_end(next)),
        is_linear(r.tree@),
        is_block_pass(r.tree@, keys@, extra@, lower as nat, next),
        block_settled(r.tree@, lower as nat, block_end(next), block_seeds(keys@, extra@)),
        forall|x: MortonKey| #[trigger]
            r.outgoing@.contains(x) <==> (in_working_set(x, keys@) && !inside(
                x,
                lower as nat,
                block_end(next),
            )),
        r.changed == (r.tree@ != keys@),
{
    let upper: u64 = match next {
        Some(n) => n.position(),
        None => CODE_LIMIT,
    };
    proof {
        lemma_pow_values();
    }
    let work: Vec<MortonKey> = working_set(keys);
    let mut seeds: Vec<MortonKey> = Vec::new();
    let mut outgoing: Vec<MortonKey> = Vec::new();
    let mut i: usize = 0;
    while i < work.len()
        invariant
            i <= work@.len(),
            all_wf(work@),
            all_wf(seeds@),
            upper == block_end(next),
            forall|x: MortonKey| #[trigger]
                seeds@.contains(x) <==> (work@.take(i as int).contains(x) && inside(
                    x,
                    lower as nat,
                    upper as nat,
                )),
            forall|x: MortonKey| #[trigger]
                outgoing@.contains(x) <==> (work@.take(i as int).contains(x) && !inside(
                    x,
                    lower as nat,
                    upper as nat,
                )),
        decreases work@.len() - i,
    {
        let k: MortonKey = work[i];
        let ghost seeds_before: Seq<MortonKey> = seeds@;
        let ghost out_before: Seq<MortonKey> = outgoing@;
        proof {
            assert(work@.take(i + 1) =~= work@.take(i as int).push(k));
            lemma_push_contains(work@.take(i as int), k);
            lemma_push_contains(seeds_before, k);
            lemma_push_contains(out_before, k);
        }
        if lies_inside(&k, lower, upper) {
            seeds.push(k);
            proof {
                assert forall|j: int| 0 <= j < seeds@.len() implies (#[trigger] seeds@[j]).wf() by {
                    if j < seeds_before.len() {
                        assert(seeds@[j] == seeds_before[j]);
                    }
                }
            }
        } else {
            outgoing.push(k);
        }
        proof {
            let shorter: Seq<MortonKey> = work@.take(i as int);
            let longer: Seq<MortonKey> = work@.take(i + 1);
            assert forall|x: MortonKey| #[trigger]
                seeds@.contains(x) <==> (longer.contains(x) && inside(
                    x,
                    lower as nat,
                    upper as nat,
                )) by {
                assert(seeds_before.contains(x) <==> (shorter.contains(x) && inside(
                    x,
                    lower as nat,
                    upper as nat,
                )));
                assert(shorter.push(k).contains(x) <==> (shorter.contains(x) || x == k));
                assert(seeds_before.push(k).contains(x) <==> (seeds_before.contains(x) || x == k));
            }
            assert forall|x: MortonKey| #[trigger]
                outgoing@.contains(x) <==> (longer.contains(x) && !inside(
                    x,
                    lower as nat,
                    upper as nat,
                )) by {
                assert(out_before.contains(x) <==> (shorter.contains(x) && !inside(
                    x,
                    lower as nat,
                    upper as nat,
                )));
                assert(shorter.push(k).contains(x) <==> (shorter.contains(x) || x == k));
                assert(out_before.push(k).contains(x) <==> (out_before.contains(x) || x == k));
            }
        }
        i = i + 1;
    }
    proof {
        assert(work@.take(work@.len() as int) =~= work@);
    }
    let ghost own: Seq<MortonKey> = seeds@;
    let mut e: usize = 0;
    while e < extra.len()
        invariant
            e <= extra@.len(),
            all_wf(extra@),
            all_wf(seeds@),
            forall|x: MortonKey| #[trigger]
                seeds@.contains(x) <==> (own.contains(x) || (extra@.take(e as int).contains(x)
                    && inside(x, lower as nat, upper as nat))),
        decreases extra@.len() - e,
    {
        let k: MortonKey = extra[e];
        let ghost seeds_before: Seq<MortonKey> = seeds@;
        proof {
            assert(extra@.take(e + 1) =~= extra@.take(e as int).push(k));
            lemma_push_contains(extra@.take(e as int), k);
            lemma_push_contains(seeds_before, k);
        }
        if lies_inside(&k, lower, upper) {
            seeds.push(k);
            proof {
                assert forall|j: int| 0 <= j < seeds@.len() implies (#[trigger] seeds@[j]).wf() by {
                    if j < seeds_before.len() {
                        assert(seeds@[j] == seeds_before[j]);
                    }
                }
            }
        }
        proof {
            let shorter: Seq<MortonKey> = extra@.take(e as int);
            let longer: Seq<MortonKey> = extra@.take(e + 1);
            assert forall|x: MortonKey| #[trigger]
                seeds@.contains(x) <==> (own.contains(x) || (longer.contains(x) && inside(
                    x,
                    lower as nat,
                    upper as nat,
                ))) by {
                assert(seeds_before.contains(x) <==> (own.contains(x) || (shorter.contains(x)
                    && inside(x, lower as nat, upper as nat))));
                assert(shorter.push(k).contains(x) <==> (shorter.contains(x) || x == k));
                assert(seeds_before.push(k).contains(x) <==> (seeds_before.contains(x) || x == k));
            }
        }
        e = e + 1;
    }
    proof {
        assert(extra@.take(extra@.len() as int) =~= extra@);
        lemma_keys_in_working_set(keys@, 0);
        lemma_tiles_bounds(keys@, lower as nat, upper as nat, 0);
        assert(work@.contains(keys@[0]));
        assert(seeds@.contains(keys@[0]));
    }
    let sorted: Vec<MortonKey> = sort_keys(seeds);
    proof {
        assert forall|t: int| 0 <= t < sorted@.len() implies lower <= (#[trigger] sorted@[t]).code()
            && (next.is_some() ==> sorted@[t].end() <= next.unwrap().code()) by {
            assert(sorted@.contains(sorted@[t]));
            assert(seeds@.contains(sorted@[t]));
        }
    }
    let tree: Vec<MortonKey> = complete_block(&sorted, lower, next);
    let changed: bool = !same_keys(&tree, keys);
    proof {
        let w: Seq<MortonKey> = sorted@;
        assert forall|x: MortonKey|
            w.contains(x) <==> (block_seeds(keys@, extra@).contains(x) && inside(
                x,
                lower as nat,
                block_end(next),
            )) by {
            assert(w.contains(x) <==> seeds@.contains(x));
            assert(work@.contains(x) <==> in_working_set(x, keys@));
        }
        assert(is_sorted(w) && all_wf(w) && (forall|x: MortonKey|
            w.contains(x) <==> (block_seeds(keys@, extra@).contains(x) && inside(
                x,
                lower as nat,
                block_end(next),
            ))) && holds_first(tree@, linearized(w), linearized(w).len() as int) && all_marked(
            tree@,
            linearized(w),
            lower as nat,
            next,
        ));
        assert forall|x: MortonKey, j: int|
            block_seeds(keys@, extra@).contains(x) && inside(x, lower as nat, block_end(next)) && 0
                <= j < tree@.len() && #[trigger] tree@[j].covers(x) implies tree@[j].level_spec()
            >= x.level_spec() by {
            assert(w.contains(x));
            lemma_seeds_settled(tree@, w, x, j);
        }
    }
    BlockPass { tree, outgoing, changed }
}

/// The key at a position of the blocks put one after the other is a key of one of the blocks.
pub proof fn lemma_concat_member(blocks: Seq<Seq<MortonKey>>, j: int) -> (at: (int, int))
    requires
        0 <= j < concat(blocks).len(),
    ensures
        0 <= at.0 < blocks.len(),
        0 <= at.1 < blocks[at.0].len(),
        concat(blocks)[j] == blocks[at.0][at.1],
    decreases blocks.len(),
{
    let head: Seq<MortonKey> = concat(blocks.drop_last());
    if j < head.len() {
        let at: (int, int) = lemma_concat_member(blocks.drop_last(), j);
        assert(blocks.drop_last()[at.0] == blocks[at.0]);
        at
    } else {
        (blocks.len() - 1, j - head.len())
    }
}

/// A key of one of the blocks is a key of the blocks put one after the other.
pub proof fn lemma_concat_holds(blocks: Seq<Seq<MortonKey>>, r: int, i: int) -> (j: int)
    requires
        0 <= r < blocks.len(),
        0 <= i < blocks[r].len(),
    ensures
        0 <= j < concat(blocks).len(),
        concat(blocks)[j] == blocks[r][i],
    decreases blocks.len(),
{
    let head: Seq<MortonKey> = concat(blocks.drop_last());
    if r < blocks.len() - 1 {
        assert(blocks.drop_last()[r] == blocks[r]);
        lemma_concat_holds(blocks.drop_last(), r, i)
    } else {
        head.len() + i
    }
}

/// Blocks that tile one range after the other, each settled for the parents of
/// the neighbours of the leaves of all blocks, make a balanced tree.
pub proof fn lemma_blocks_balanced(
    blocks: Seq<Seq<MortonKey>>,
    bounds: Seq<nat>,
    pushed: Set<MortonKey>,
)
    requires
        bounds.len() == blocks.len() + 1,
        forall|r: int|
            0 <= r < blocks.len() ==> tiles(#[trigger] blocks[r], bounds[r], bounds[r + 1]),
        forall|r: int|
            0 <= r < blocks.len() ==> block_settled(
                #[trigger] blocks[r],
                bounds[r],
                bounds[r + 1],
                pushed,
            ),
        forall|r: int, i: int, n: MortonKey|
            0 <= r < blocks.len() && 0 <= i < blocks[r].len() && #[trigger] n.is_neighbor_of(
                blocks[r][i],
            ) ==> pushed.contains(n.parent_spec()),
    ensures
        is_balanced(concat(blocks)),
{
    let whole: Seq<MortonKey> = concat(blocks);
    assert forall|i: int, j: int, n: MortonKey|
        0 <= i < whole.len() && 0 <= j < whole.len() && #[trigger] n.is_neighbor_of(whole[i])
            && #[trigger] whole[j].covers(n) implies whole[j].level_spec() + 1
        >= whole[i].level_spec() by {
        let k: MortonKey = whole[i];
        let t: MortonKey = whole[j];
        if t.level_spec() + 1 < k.level_spec() {
            let from: (int, int) = lemma_concat_member(blocks, i);
            let to: (int, int) = lemma_concat_member(blocks, j);
            assert(tiles(blocks[from.0], bounds[from.0], bounds[from.0 + 1]));
            assert(tiles(blocks[to.0], bounds[to.0], bounds[to.0 + 1]));
            assert(blocks[from.0][from.1].wf());
            assert(n.is_neighbor_of(blocks[from.0][from.1]));
            let p: MortonKey = n.parent_spec();
            lemma_parent(n);
            lemma_width_positive(n);
            assert(pushed.contains(p));
            assert(t.overlaps(p));
            lemma_overlap_nested(t, p);
            lemma_tiles_bounds(blocks[to.0], bounds[to.0], bounds[to.0 + 1], to.1);
            assert(inside(p, bounds[to.0], bounds[to.0 + 1]));
            assert(block_settled(blocks[to.0], bounds[to.0], bounds[to.0 + 1], pushed));
            assert(blocks[to.0][to.1].covers(p));
            assert(false);
        }
    }
}

/// A key that has a neighbour is not the root.
pub proof fn lemma_neighbor_below_root(n: MortonKey, k: MortonKey)
    requires
        k.wf(),
        n.is_neighbor_of(k),
    ensures
        k.level_spec() > 0,
{
    if k.level_spec() == 0 {
        lemma_pow_values();
        crate::powers::lemma_round_down_unique(n.code(), eight_pow(16), 0);
        crate::powers::lemma_round_down_unique(k.code(), eight_pow(16), 0);
        crate::powers::lemma_round_down(n.code(), eight_pow(16));
        crate::powers::lemma_round_down(k.code(), eight_pow(16));
        crate::morton::lemma_key_equal(n, k);
    }
}

/// The keys that the passes of balancing over all blocks work with.
pub open spec fn all_working_sets(blocks: Seq<Seq<MortonKey>>) -> Set<MortonKey> {
    Set::new(
        |x: MortonKey| exists|r: int| 0 <= r < blocks.len() && #[trigger] in_working_set(x, blocks[r]),
    )
}

/// A key of the working set of one block that lies in the range of another
/// block is a key that the other block has received.
proof fn lemma_key_arrives(
    blocks: Seq<Seq<MortonKey>>,
    bounds: Seq<nat>,
    received: Seq<MortonKey>,
    r: int,
    from: int,
    x: MortonKey,
)
    requires
        bounds.len() == blocks.len() + 1,
        forall|q: int|
            0 <= q < blocks.len() ==> tiles(#[trigger] blocks[q], bounds[q], bounds[q + 1]),
        forall|q: int, y: MortonKey|
            0 <= q < blocks.len() && #[trigger] in_working_set(y, blocks[q]) && !inside(
                y,
                bounds[q],
                bounds[q + 1],
            ) ==> received.contains(y),
        0 <= r < blocks.len(),
        0 <= from < blocks.len(),
        in_working_set(x, blocks[from]),
        inside(x, bounds[r], bounds[r + 1]),
        x.code() < x.end(),
    ensures
        block_seeds(blocks[r], received).contains(x),
{
    if from != r {
        if inside(x, bounds[from], bounds[from + 1]) {
            lemma_bounds_ordered(blocks, bounds, r, from);
            lemma_bounds_ordered(blocks, bounds, from, r);
            assert(false);
        }
        assert(received.contains(x));
    }
}

/// A block that is settled for its own working set and for what it has
/// received is settled for the working sets of all blocks.
proof fn lemma_settled_for_all(
    blocks: Seq<Seq<MortonKey>>,
    bounds: Seq<nat>,
    received: Seq<MortonKey>,
    r: int,
)
    requires
        bounds.len() == blocks.len() + 1,
        forall|q: int|
            0 <= q < blocks.len() ==> tiles(#[trigger] blocks[q], bounds[q], bounds[q + 1]),
        forall|q: int, y: MortonKey|
            0 <= q < blocks.len() && #[trigger] in_working_set(y, blocks[q]) && !inside(
                y,
                bounds[q],
                bounds[q + 1],
            ) ==> received.contains(y),
        0 <= r < blocks.len(),
        block_settled(blocks[r], bounds[r], bounds[r + 1], block_seeds(blocks[r], received)),
    ensures
        block_settled(blocks[r], bounds[r], bounds[r + 1], all_working_sets(blocks)),
{
    let block: Seq<MortonKey> = blocks[r];
    let pushed: Set<MortonKey> = all_working_sets(blocks);
    let seeds: Set<MortonKey> = block_seeds(block, received);
    assert forall|x: MortonKey, j: int|
        pushed.contains(x) && inside(x, bounds[r], bounds[r + 1]) && 0 <= j < block.len()
            && #[trigger] block[j].covers(x) implies block[j].level_spec() >= x.level_spec() by {
        let from: int = choose|from: int|
            0 <= from < blocks.len() && #[trigger] in_working_set(x, blocks[from]);
        lemma_width_positive(x);
        lemma_key_arrives(blocks, bounds, received, r, from, x);
        assert(seeds.contains(x));
    }
}

/// The blocks of all processes make a balanced tree once a round of balancing
/// has left every block as it is: where the blocks tile the cube one after the
/// other, every block is settled for its own working set and for the keys that
/// it has received, and it has received every key that another block has
/// handed out.
pub proof fn lemma_settled_round_balanced(
    blocks: Seq<Seq<MortonKey>>,
    bounds: Seq<nat>,
    received: Seq<MortonKey>,
)
    requires
        bounds.len() == blocks.len() + 1,
        forall|r: int|
            0 <= r < blocks.len() ==> tiles(#[trigger] blocks[r], bounds[r], bounds[r + 1]),
        forall|r: int|
            0 <= r < blocks.len() ==> block_settled(
                #[trigger] blocks[r],
                bounds[r],
                bounds[r + 1],
                block_seeds(blocks[r], received),
            ),
        forall|r: int, x: MortonKey|
            0 <= r < blocks.len() && #[trigger] in_working_set(x, blocks[r]) && !inside(
                x,
                bounds[r],
                bounds[r + 1],
            ) ==> received.contains(x),
    ensures
        is_balanced(concat(blocks)),
{
    let pushed: Set<MortonKey> = all_working_sets(blocks);
    assert forall|r: int| 0 <= r < blocks.len() implies block_settled(
        #[trigger] blocks[r],
        bounds[r],
        bounds[r + 1],
        pushed,
    ) by {
        lemma_settled_for_all(blocks, bounds, received, r);
    }
    assert forall|r: int, i: int, n: MortonKey|
        0 <= r < blocks.len() && 0 <= i < blocks[r].len() && #[trigger] n.is_neighbor_of(
            blocks[r][i],
        ) implies pushed.contains(n.parent_spec()) by {
        lemma_neighbor_pushed(blocks, bounds, r, i, n);
    }
    lemma_blocks_balanced(blocks, bounds, pushed);
}

/// The parent of a neighbour of a leaf of a block is in the working set of the block.
proof fn lemma_neighbor_pushed(
    blocks: Seq<Seq<MortonKey>>,
    bounds: Seq<nat>,
    r: int,
    i: int,
    n: MortonKey,
)
    requires
        bounds.len() == blocks.len() + 1,
        0 <= r < blocks.len(),
        tiles(blocks[r], bounds[r], bounds[r + 1]),
        0 <= i < blocks[r].len(),
        n.is_neighbor_of(blocks[r][i]),
    ensures
        all_working_sets(blocks).contains(n.parent_spec()),
{
    let k: MortonKey = blocks[r][i];
    assert(k.wf());
    lemma_neighbor_below_root(n, k);
    lemma_keys_in_working_set(blocks[r], i);
    lemma_push_in_working_set(blocks[r], k, n);
    assert(in_working_set(n.parent_spec(), blocks[r]));
}

/// The ranges of two blocks do not overlap: the earlier one ends before the
/// later one starts.
pub proof fn lemma_bounds_ordered(blocks: Seq<Seq<MortonKey>>, bounds: Seq<nat>, a: int, b: int)
    requires
        bounds.len() == blocks.len() + 1,
        forall|r: int|
            0 <= r < blocks.len() ==> tiles(#[trigger] blocks[r], bounds[r], bounds[r + 1]),
        0 <= a < blocks.len(),
        0 <= b < blocks.len(),
    ensures
        a < b ==> bounds[a + 1] <= bounds[b],
    decreases b - a,
{
    if a + 1 < b {
        lemma_bounds_ordered(blocks, bounds, a + 1, b);
        assert(tiles(blocks[a + 1], bounds[a + 1], bounds[a + 2]));
    }
}

/// A complete tree that is settled for its own working set is balanced: such is
/// the tree of a single process after a round of balancing that has left it as
/// it is.
pub proof fn lemma_single_block_balanced(tree: Seq<MortonKey>, received: Seq<MortonKey>)
    requires
        is_complete(tree),
        block_settled(tree, 0, eight_pow(16), block_seeds(tree, received)),
    ensures
        is_balanced(tree),
{
    assert forall|i: int, j: int, n: MortonKey|
        0 <= i < tree.len() && 0 <= j < tree.len() && #[trigger] n.is_neighbor_of(tree[i])
            && #[trigger] tree[j].covers(n) implies tree[j].level_spec() + 1
        >= tree[i].level_spec() by {
        let k: MortonKey = tree[i];
        let t: MortonKey = tree[j];
        if t.level_spec() + 1 < k.level_spec() {
            let p: MortonKey = n.parent_spec();
            lemma_parent(n);
            lemma_width_positive(n);
            lemma_keys_in_working_set(tree, i);
            lemma_push_in_working_set(tree, k, n);
            assert(block_seeds(tree, received).contains(p));
            crate::morton::lemma_end_bound(p);
            assert(inside(p, 0, eight_pow(16)));
            assert(t.overlaps(p));
            lemma_overlap_nested(t, p);
            assert(tree[j].covers(p));
            assert(false);
        }
    }
}

} // verus!
