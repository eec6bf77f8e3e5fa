//! Octrees over particles: the keys of each level, the relation maps and the
//! figures of a tree.

use std::collections::{HashMap, HashSet};
use vstd::prelude::*;
use vstd::std_specs::iter::IteratorSpec;
use crate::arrays::{first_occurrences, lemma_first_occurrences_length, unique_keys, KeyArray};
use crate::morton::{lemma_ancestor_at, lemma_covering_is_ancestor_at, MortonKey, GRID_SIZE};
use crate::neighbors::{
    compute_interaction_list, compute_near_field, interaction_rank, near_field_size,
};
use crate::vtk::{vtk_model, VtkModel};

verus! {

/// The type of the octree.
#[derive(Clone, Copy, Debug, PartialEq, Eq, Structural)]
pub enum OctreeType {
    /// Regular octree.
    Regular,
    /// Use for balanced adaptive octrees.
    BalancedAdaptive,
    /// Use for unbalanced adaptive octrees.
    UnbalancedAdaptive,
}

/// The key with the given integer value.
pub open spec fn raw_key(k: u64) -> MortonKey {
    MortonKey { morton: k }
}

/// Every integer of the set names a cell.
pub open spec fn all_valid(keys: Set<u64>) -> bool {
    forall|k: u64| keys.contains(k) ==> (#[trigger] raw_key(k)).wf()
}

/// The near field of a key, as a set of integers.
pub open spec fn near_field_set(k: u64) -> Set<u64> {
    Set::new(|n: u64| raw_key(n).in_near_field_of(raw_key(k)))
}

/// The interaction list of a key, as a set of integers.
pub open spec fn interaction_set(k: u64) -> Set<u64> {
    Set::new(|n: u64| raw_key(n).in_interaction_list_of(raw_key(k)))
}

/// The cells of the near field of a key that are keys of the tree: the cells
/// around the key that are present.
pub open spec fn present_near_field(k: u64, keys: Set<u64>) -> Set<u64> {
    near_field_set(k).intersect(keys)
}

/// The cells of the interaction list of a key that are keys of the tree.
pub open spec fn present_interaction_list(k: u64, keys: Set<u64>) -> Set<u64> {
    interaction_set(k).intersect(keys)
}

/// The positions below `upto` at which the key `k` stands in `s`.
pub open spec fn indices_of(s: Seq<u64>, k: u64, upto: int) -> Set<usize> {
    Set::new(|i: usize| i < upto && s[i as int] == k)
}

/// The first `i + 1` items of a sequence are the first `i` and the item at `i`.
pub proof fn lemma_take_insert(s: Seq<u64>, i: int)
    requires
        0 <= i < s.len(),
    ensures
        s.take(i + 1).to_set() == s.take(i).to_set().insert(s[i]),
{
    let long: Seq<u64> = s.take(i + 1);
    let short: Seq<u64> = s.take(i);
    let a: Set<u64> = long.to_set();
    let b: Set<u64> = short.to_set().insert(s[i]);
    assert forall|x: u64| a.contains(x) <==> b.contains(x) by {
        if a.contains(x) {
            assert(long.contains(x));
            let j: int = choose|j: int| 0 <= j < long.len() && long[j] == x;
            if j < i {
                assert(short[j] == x);
                assert(short.contains(x));
            }
        }
        if b.contains(x) {
            if x == s[i] {
                assert(long[i] == x);
            } else {
                assert(short.contains(x));
                let j: int = choose|j: int| 0 <= j < short.len() && short[j] == x;
                assert(long[j] == x);
            }
            assert(long.contains(x));
        }
    }
    assert(a =~= b);
}

/// The integer values of the keys of a list that are keys of the tree, as a set.
fn present_set(v: &Vec<MortonKey>, all_keys: &HashSet<u64>) -> (r: HashSet<u64>)
    ensures
        forall|n: u64| #[trigger]
            r@.contains(n) <==> (v@.contains(raw_key(n)) && all_keys@.contains(n)),
{
    broadcast use vstd::std_specs::hash::group_hash_axioms;

    let mut out: HashSet<u64> = HashSet::new();
    let mut i: usize = 0;
    while i < v.len()
        invariant
            i <= v@.len(),
            forall|n: u64| #[trigger]
                out@.contains(n) <==> (all_keys@.contains(n) && exists|j: int|
                    0 <= j < i && v@[j] == raw_key(n)),
        decreases v@.len() - i,
    {
        let k: MortonKey = v[i];
        if all_keys.contains(&k.morton) {
            out.insert(k.morton);
        }
        proof {
            assert(v@[i as int] == raw_key(k.morton));
        }
        i = i + 1;
    }
    out
}

/// Given the set of all keys, compute the near field for each key.
///
/// Returns a map from keys to the corresponding near field, represented by
/// a set of keys: the cells around the key, and the key itself, that are keys
/// of the tree.
pub fn compute_near_field_map(all_keys: &HashSet<u64>) -> (r: HashMap<u64, HashSet<u64>>)
    requires
        all_valid(all_keys@),
    ensures
        r@.dom() == all_keys@,
        forall|k: u64|
            all_keys@.contains(k) ==> (#[trigger] r@[k])@ == present_near_field(k, all_keys@),
{
    broadcast use vstd::std_specs::hash::group_hash_axioms;

    let mut map: HashMap<u64, HashSet<u64>> = HashMap::new();
    let ghost all: Seq<u64> = all_keys.iter().remaining().unref();
    for k in it: all_keys.iter()
        invariant
            it.seq().unref() == all,
            all.to_set() == all_keys@,
            all_valid(all_keys@),
            map@.dom() == all.take(it.index()).to_set(),
            forall|key: u64|
                map@.contains_key(key) ==> (#[trigger] map@[key])@ == present_near_field(
                    key,
                    all_keys@,
                ),
    {
        let key: u64 = *k;
        proof {
            assert(all[it.index()] == key);
            assert(all.contains(key));
            assert(all_keys@.contains(key));
            assert(raw_key(key).wf());
            lemma_take_insert(all, it.index());
        }
        let near: Vec<MortonKey> = compute_near_field(MortonKey { morton: key });
        let set: HashSet<u64> = present_set(&near, all_keys);
        proof {
            assert(set@ =~= present_near_field(key, all_keys@));
        }
        map.insert(key, set);
    }
    proof {
        assert(all.take(all.len() as int) =~= all);
    }
    map
}

/// What holds of the number of cells of an interaction list that are present:
/// they are at most 189; and where all cells of the list are keys of the tree
/// they are eight for each cell of the near field of the parent, less the cells
/// of the near field of the key, which makes 189 where the parent does not touch
/// the border of the cube.
pub open spec fn interaction_count_holds(k: u64, keys: Set<u64>) -> bool {
    let list: Set<u64> = present_interaction_list(k, keys);
    let key: MortonKey = raw_key(k);
    &&& list.finite()
    &&& list.len() <= 189
    &&& (key.level_spec() > 0 && interaction_set(k).subset_of(keys)) ==> {
        &&& list.len() + near_field_size(key) == 8 * near_field_size(key.parent_spec())
        &&& near_field_size(key.parent_spec()) == 27 ==> list.len() == 189
    }
}

/// The cells of an interaction list that are present are as many as the list
/// says, or fewer where some are not present.
proof fn lemma_interaction_count(list: Seq<MortonKey>, k: u64, keys: Set<u64>)
    requires
        forall|c: MortonKey| #[trigger] list.contains(c) <==> c.in_interaction_list_of(raw_key(k)),
        forall|p: int, q: int|
            0 <= p < q < list.len() ==> interaction_rank(list[p], raw_key(k)) < interaction_rank(
                list[q],
                raw_key(k),
            ),
        list.len() <= 189,
        raw_key(k).level_spec() > 0 ==> list.len() + near_field_size(raw_key(k)) == 8
            * near_field_size(raw_key(k).parent_spec()),
        raw_key(k).level_spec() > 0 && near_field_size(raw_key(k).parent_spec()) == 27
            ==> list.len() == 189,
    ensures
        interaction_count_holds(k, keys),
{
    let raws: Seq<u64> = Seq::new(list.len(), |t: int| list[t].morton);
    assert(raws.no_duplicates()) by {
        assert forall|i: int, j: int| 0 <= i < raws.len() && 0 <= j < raws.len() && i
            != j implies raws[i] != raws[j] by {
            if i < j {
                assert(interaction_rank(list[i], raw_key(k)) < interaction_rank(
                    list[j],
                    raw_key(k),
                ));
            } else {
                assert(interaction_rank(list[j], raw_key(k)) < interaction_rank(
                    list[i],
                    raw_key(k),
                ));
            }
        }
    }
    assert(interaction_set(k) =~= raws.to_set()) by {
        assert forall|n: u64| interaction_set(k).contains(n) <==> raws.to_set().contains(n) by {
            if interaction_set(k).contains(n) {
                assert(list.contains(raw_key(n)));
                let t: int = choose|t: int| 0 <= t < list.len() && list[t] == raw_key(n);
                assert(raws[t] == n);
                assert(raws.contains(n));
            }
            if raws.to_set().contains(n) {
                assert(raws.contains(n));
                let t: int = choose|t: int| 0 <= t < raws.len() && raws[t] == n;
                assert(list[t] == raw_key(n));
                assert(list.contains(raw_key(n)));
            }
        }
    }
    raws.unique_seq_to_set();
    vstd::seq_lib::seq_to_set_is_finite(raws);
    let present: Set<u64> = present_interaction_list(k, keys);
    assert(present.subset_of(raws.to_set()));
    vstd::set_lib::lemma_len_subset(present, raws.to_set());
    if interaction_set(k).subset_of(keys) {
        assert(present =~= interaction_set(k));
    }
}

/// Given the set of all keys, compute the interaction list for each key.
///
/// Returns a map from keys to the corresponding interaction list, represented by
/// a set of keys: the cells of the interaction list of the key that are keys of
/// the tree.
pub fn compute_interaction_list_map(all_keys: &HashSet<u64>) -> (r: HashMap<u64, HashSet<u64>>)
    requires
        all_valid(all_keys@),
    ensures
        r@.dom() == all_keys@,
        forall|k: u64|
            all_keys@.contains(k) ==> (#[trigger] r@[k])@ == present_interaction_list(
                k,
                all_keys@,
            ),
        forall|k: u64| all_keys@.contains(k) ==> #[trigger] interaction_count_holds(k, all_keys@),
{
    broadcast use vstd::std_specs::hash::group_hash_axioms;

    let mut map: HashMap<u64, HashSet<u64>> = HashMap::new();
    let ghost all: Seq<u64> = all_keys.iter().remaining().unref();
    for k in it: all_keys.iter()
        invariant
            it.seq().unref() == all,
            all.to_set() == all_keys@,
            all_valid(all_keys@),
            map@.dom() == all.take(it.index()).to_set(),
            forall|key: u64|
                map@.contains_key(key) ==> (#[trigger] map@[key])@ == present_interaction_list(
                    key,
                    all_keys@,
                ),
            forall|key: u64|
                map@.contains_key(key) ==> #[trigger] interaction_count_holds(key, all_keys@),
    {
        let key: u64 = *k;
        proof {
            assert(all[it.index()] == key);
            assert(all.contains(key));
            assert(all_keys@.contains(key));
            assert(raw_key(key).wf());
            lemma_take_insert(all, it.index());
        }
        let list: Vec<MortonKey> = compute_interaction_list(MortonKey { morton: key });
        let set: HashSet<u64> = present_set(&list, all_keys);
        proof {
            assert(set@ =~= present_interaction_list(key, all_keys@));
            lemma_interaction_count(list@, key, all_keys@);
        }
        map.insert(key, set);
    }
    proof {
        assert(all.take(all.len() as int) =~= all);
    }
    map
}

/// Compute the leaf map.
///
/// Returns a map from leaf keys to associated particle indices.
pub fn compute_leaf_map(particle_keys: &KeyArray) -> (r: HashMap<u64, HashSet<usize>>)
    ensures
        r@.dom() == particle_keys@.to_set(),
        forall|k: u64|
            particle_keys@.contains(k) ==> (#[trigger] r@[k])@ == indices_of(
                particle_keys@,
                k,
                particle_keys@.len() as int,
            ),
{
    broadcast use vstd::std_specs::hash::group_hash_axioms;

    let keys: Vec<u64> = particle_keys.to_vec();
    let unique: Vec<u64> = unique_keys(&keys);
    let mut map: HashMap<u64, HashSet<usize>> = HashMap::new();
    let mut j: usize = 0;
    while j < unique.len()
        invariant
            j <= unique@.len(),
            map@.dom() == unique@.take(j as int).to_set(),
            forall|k: u64| map@.contains_key(k) ==> (#[trigger] map@[k])@ == Set::<usize>::empty(),
        decreases unique@.len() - j,
    {
        proof {
            lemma_take_insert(unique@, j as int);
        }
        map.insert(unique[j], HashSet::new());
        j = j + 1;
    }
    proof {
        assert(unique@.take(unique@.len() as int) =~= unique@);
        assert(unique@.to_set() =~= keys@.to_set());
        assert forall|k: u64| map@.contains_key(k) implies (#[trigger] map@[k])@ == indices_of(
            keys@,
            k,
            0,
        ) by {
            assert(map@[k]@ =~= indices_of(keys@, k, 0));
        }
    }
    let mut i: usize = 0;
    while i < keys.len()
        invariant
            i <= keys@.len(),
            map@.dom() == keys@.to_set(),
            forall|k: u64|
                map@.contains_key(k) ==> (#[trigger] map@[k])@ == indices_of(keys@, k, i as int),
        decreases keys@.len() - i,
    {
        let key: u64 = keys[i];
        proof {
            assert(keys@.contains(key));
        }
        let ghost before: Map<u64, HashSet<usize>> = map@;
        let taken: Option<HashSet<usize>> = map.remove(&key);
        let mut set: HashSet<usize> = taken.unwrap();
        set.insert(i);
        proof {
            assert(set@ =~= indices_of(keys@, key, i + 1));
        }
        map.insert(key, set);
        proof {
            assert(map@.dom() =~= before.dom());
            assert forall|k: u64| map@.contains_key(k) implies (#[trigger] map@[k])@ == indices_of(
                keys@,
                k,
                i + 1,
            ) by {
                if k != key {
                    assert(map@[k] == before[k]);
                    assert(indices_of(keys@, k, i as int) =~= indices_of(keys@, k, i + 1));
                }
            }
        }
        i = i + 1;
    }
    map
}

/// Every integer of the sequence names a cell.
pub open spec fn all_valid_seq(s: Seq<u64>) -> bool {
    forall|i: int| 0 <= i < s.len() ==> raw_key(#[trigger] s[i]).wf()
}

/// `a` names a cell that contains one of the first `upto` leaves: it is a key of
/// the tree that those leaves span.
pub open spec fn is_tree_key(a: u64, leaves: Seq<u64>, upto: int) -> bool {
    raw_key(a).wf() && exists|i: int|
        0 <= i < upto && raw_key(a).covers(raw_key(#[trigger] leaves[i]))
}

/// `a` is a key of the tree that the first `upto` leaves span, or contains the
/// leaf at `upto` and has a level below `below`.
pub open spec fn is_partial_tree_key(a: u64, leaves: Seq<u64>, upto: int, below: nat) -> bool {
    is_tree_key(a, leaves, upto) || (raw_key(a).wf() && raw_key(a).covers(raw_key(leaves[upto]))
        && raw_key(a).level_spec() < below)
}

/// The largest level among the leaves.
pub open spec fn is_max_level(level: u64, leaves: Seq<u64>) -> bool {
    &&& forall|i: int| 0 <= i < leaves.len() ==> raw_key(#[trigger] leaves[i]).level_spec() <= level
    &&& exists|i: int| 0 <= i < leaves.len() && raw_key(#[trigger] leaves[i]).level_spec() == level
}

/// One more level of the leaf at `upto` adds its ancestor at that level.
proof fn lemma_partial_step(a: u64, leaves: Seq<u64>, upto: int, below: nat, anc: MortonKey)
    requires
        0 <= upto < leaves.len(),
        raw_key(leaves[upto]).wf(),
        below <= raw_key(leaves[upto]).level_spec(),
        anc == raw_key(leaves[upto]).ancestor_at(below),
    ensures
        is_partial_tree_key(a, leaves, upto, below + 1) <==> (is_partial_tree_key(
            a,
            leaves,
            upto,
            below,
        ) || a == anc.morton),
{
    let leaf: MortonKey = raw_key(leaves[upto]);
    lemma_ancestor_at(leaf, below);
    if raw_key(a).wf() && raw_key(a).covers(leaf) && raw_key(a).level_spec() == below {
        lemma_covering_is_ancestor_at(raw_key(a), leaf);
    }
}

/// With all levels of the leaf at `upto` the tree holds one leaf more; with
/// none of them it holds the leaves before it.
proof fn lemma_partial_done(a: u64, leaves: Seq<u64>, upto: int)
    requires
        0 <= upto < leaves.len(),
        raw_key(leaves[upto]).wf(),
    ensures
        is_partial_tree_key(a, leaves, upto, raw_key(leaves[upto]).level_spec() + 1)
            <==> is_tree_key(a, leaves, upto + 1),
        is_partial_tree_key(a, leaves, upto, 0) <==> is_tree_key(a, leaves, upto),
{
    let leaf: MortonKey = raw_key(leaves[upto]);
    if raw_key(a).wf() && raw_key(a).covers(leaf) {
        lemma_covering_is_ancestor_at(raw_key(a), leaf);
    }
    if is_tree_key(a, leaves, upto + 1) && !is_tree_key(a, leaves, upto) {
        let i: int = choose|i: int|
            0 <= i < upto + 1 && raw_key(a).covers(raw_key(#[trigger] leaves[i]));
        assert(i == upto);
    }
    if is_tree_key(a, leaves, upto) {
        let i: int = choose|i: int| 0 <= i < upto && raw_key(a).covers(raw_key(#[trigger] leaves[i]));
        assert(0 <= i < upto + 1);
    }
}

/// Given an array of keys. Return the level information of the tree.
///
/// The function returns a 3-tuple `(max_level, all_keys, level_keys)`.
/// `max_level` contains the maximum level of the keys.
/// The set `all_keys` contains all keys from the tree by completing the tree
/// from the leaf onwards to the top and storing all parent keys along the way.
/// The map `level_keys` is a map from a given level to the set of all keys contained
/// in the level.
pub fn compute_level_information(particle_keys: &KeyArray) -> (r: (
    u64,
    HashSet<u64>,
    HashMap<u64, HashSet<u64>>,
))
    requires
        particle_keys@.len() > 0,
        all_valid_seq(particle_keys@),
    ensures
        is_max_level(r.0, particle_keys@),
        forall|a: u64|
            r.1@.contains(a) <==> is_tree_key(a, particle_keys@, particle_keys@.len() as int),
        forall|l: u64| r.2@.contains_key(l) <==> l <= r.0,
        forall|l: u64, a: u64|
            l <= r.0 ==> ((#[trigger] r.2@[l]@.contains(a)) <==> (is_tree_key(
                a,
                particle_keys@,
                particle_keys@.len() as int,
            ) && raw_key(a).level_spec() == l)),
{
    broadcast use vstd::std_specs::hash::group_hash_axioms;

    let keys: Vec<u64> = particle_keys.to_vec();
    let n: usize = keys.len();
    let mut max_level: u64 = (MortonKey { morton: keys[0] }).level();
    let mut i: usize = 1;
    while i < n
        invariant
            1 <= i <= n,
            n == keys@.len(),
            all_valid_seq(keys@),
            max_level <= 16,
            forall|j: int| 0 <= j < i ==> raw_key(#[trigger] keys@[j]).level_spec() <= max_level,
            exists|j: int| 0 <= j < i && raw_key(#[trigger] keys@[j]).level_spec() == max_level,
        decreases n - i,
    {
        let level: u64 = (MortonKey { morton: keys[i] }).level();
        if level > max_level {
            max_level = level;
        }
        i = i + 1;
    }
    let mut level_keys: HashMap<u64, HashSet<u64>> = HashMap::new();
    let mut l: u64 = 0;
    while l <= max_level
        invariant
            l <= max_level + 1,
            max_level <= 16,
            forall|m: u64| level_keys@.contains_key(m) <==> m < l,
            forall|m: u64| m < l ==> (#[trigger] level_keys@[m])@ == Set::<u64>::empty(),
        decreases max_level + 1 - l,
    {
        level_keys.insert(l, HashSet::new());
        l = l + 1;
    }
    let mut all_keys: HashSet<u64> = HashSet::new();
    let mut i: usize = 0;
    while i < n
        invariant
            i <= n,
            n == keys@.len(),
            all_valid_seq(keys@),
            max_level <= 16,
            forall|j: int| 0 <= j < n ==> raw_key(#[trigger] keys@[j]).level_spec() <= max_level,
            forall|a: u64| all_keys@.contains(a) <==> is_tree_key(a, keys@, i as int),
            forall|m: u64| level_keys@.contains_key(m) <==> m <= max_level,
            forall|m: u64, a: u64|
                m <= max_level ==> ((#[trigger] level_keys@[m]@.contains(a)) <==> (is_tree_key(
                    a,
                    keys@,
                    i as int,
                ) && raw_key(a).level_spec() == m)),
        decreases n - i,
    {
        let key: MortonKey = MortonKey { morton: keys[i] };
        let level: u64 = key.level();
        let mut m: u64 = 0;
        proof {
            assert forall|a: u64|
                is_partial_tree_key(a, keys@, i as int, 0) <==> is_tree_key(
                    a,
                    keys@,
                    i as int,
                ) by {
                lemma_partial_done(a, keys@, i as int);
            }
        }
        while m <= level
            invariant
                m <= level + 1,
                i < n,
                n == keys@.len(),
                key == raw_key(keys@[i as int]),
                key.wf(),
                level == key.level_spec(),
                level <= max_level <= 16,
                forall|a: u64|
                    all_keys@.contains(a) <==> is_partial_tree_key(a, keys@, i as int, m as nat),
                forall|w: u64| level_keys@.contains_key(w) <==> w <= max_level,
                forall|w: u64, a: u64|
                    w <= max_level ==> ((#[trigger] level_keys@[w]@.contains(a)) <==> (
                    is_partial_tree_key(a, keys@, i as int, m as nat) && raw_key(a).level_spec()
                        == w)),
            decreases level + 1 - m,
        {
            let anc: MortonKey = key.ancestor(m);
            let ghost old_levels: Map<u64, HashSet<u64>> = level_keys@;
            all_keys.insert(anc.morton);
            let taken: Option<HashSet<u64>> = level_keys.remove(&m);
            let mut set: HashSet<u64> = taken.unwrap();
            set.insert(anc.morton);
            level_keys.insert(m, set);
            proof {
                assert forall|a: u64|
                    all_keys@.contains(a) <==> is_partial_tree_key(
                        a,
                        keys@,
                        i as int,
                        (m + 1) as nat,
                    ) by {
                    lemma_partial_step(a, keys@, i as int, m as nat, anc);
                }
                assert forall|w: u64, a: u64| w <= max_level implies ((
                #[trigger] level_keys@[w]@.contains(a)) <==> (is_partial_tree_key(
                    a,
                    keys@,
                    i as int,
                    (m + 1) as nat,
                ) && raw_key(a).level_spec() == w)) by {
                    lemma_partial_step(a, keys@, i as int, m as nat, anc);
                    if w != m {
                        assert(level_keys@[w] == old_levels[w]);
                    }
                }
            }
            m = m + 1;
        }
        proof {
            let top: nat = (level + 1) as nat;
            let upto: int = i + 1;
            assert forall|a: u64| #[trigger]
                is_partial_tree_key(a, keys@, i as int, top) <==> is_tree_key(a, keys@, upto) by {
                lemma_partial_done(a, keys@, i as int);
            }
        }
        i = i + 1;
    }
    (max_level, all_keys, level_keys)
}

/// Create a regular octree from the grid points of particles.
///
/// Returns the set of all non-empty keys associated with a regular octree created
/// from particles: the cell of level `max_level` of each particle and the cells
/// above it.
pub fn compute_complete_regular_tree(points: &Vec<[u64; 3]>, max_level: u64) -> (r: HashSet<u64>)
    requires
        points@.len() > 0,
        max_level <= 16,
        forall|i: int|
            0 <= i < points@.len() ==> (#[trigger] points@[i])[0] < GRID_SIZE && points@[i][1]
                < GRID_SIZE && points@[i][2] < GRID_SIZE,
    ensures
        forall|a: u64|
            r@.contains(a) <==> is_tree_key(a, point_keys(points@, max_level), points@.len() as int),
{
    let keys: Vec<u64> = encode_points(points, max_level);
    let array: KeyArray = KeyArray::from_vec(keys);
    let info: (u64, HashSet<u64>, HashMap<u64, HashSet<u64>>) = compute_level_information(&array);
    info.1
}

/// The keys of the cells of a level that hold the given grid points, in order.
pub open spec fn point_keys(points: Seq<[u64; 3]>, level: u64) -> Seq<u64> {
    Seq::new(
        points.len(),
        |i: int|
            crate::morton::key_at(
                points[i][0] as nat,
                points[i][1] as nat,
                points[i][2] as nat,
                level as nat,
            ).morton,
    )
}

/// The keys of the cells of a level that hold the given grid points, in order.
pub fn encode_points(points: &Vec<[u64; 3]>, level: u64) -> (r: Vec<u64>)
    requires
        level <= 16,
        forall|i: int|
            0 <= i < points@.len() ==> (#[trigger] points@[i])[0] < GRID_SIZE && points@[i][1]
                < GRID_SIZE && points@[i][2] < GRID_SIZE,
    ensures
        r@ == point_keys(points@, level),
        all_valid_seq(r@),
{
    let mut out: Vec<u64> = Vec::new();
    let mut i: usize = 0;
    while i < points.len()
        invariant
            i <= points@.len(),
            level <= 16,
            forall|j: int|
                0 <= j < points@.len() ==> (#[trigger] points@[j])[0] < GRID_SIZE && points@[j][1]
                    < GRID_SIZE && points@[j][2] < GRID_SIZE,
            out@.len() == i,
            forall|j: int| 0 <= j < i ==> out@[j] == point_keys(points@, level)[j],
            forall|j: int| 0 <= j < i ==> raw_key(#[trigger] out@[j]).wf(),
        decreases points@.len() - i,
    {
        let p: [u64; 3] = points[i];
        let key: MortonKey = MortonKey::from_anchor(p, level);
        out.push(key.morton);
        i = i + 1;
    }
    proof {
        assert(out@ =~= point_keys(points@, level));
    }
    out
}

/// Figures of a tree.
pub struct Statistics {
    /// The number of particles.
    pub number_of_particles: usize,
    /// The deepest level of the keys.
    pub max_level: u64,
    /// The number of leaves: keys that hold particles.
    pub number_of_leafs: usize,
    /// The number of keys of the tree.
    pub number_of_keys: usize,
    /// The time that it took to make the tree, in milliseconds.
    pub creation_time_millis: u64,
    /// The smallest number of particles in a leaf.
    pub minimum_number_of_particles_in_leaf: usize,
    /// The largest number of particles in a leaf.
    pub maximum_number_of_particles_in_leaf: usize,
}

/// The basic octree data structure.
pub struct Octree {
    /// The keys associated with the particles.
    pub particle_keys: KeyArray,
    /// The maximum level in the tree.
    pub max_level: u64,
    /// The non-empty keys for each level of the tree.
    pub level_keys: HashMap<u64, HashSet<u64>>,
    /// The set of near-field keys for each non-empty key.
    pub near_field: HashMap<u64, HashSet<u64>>,
    /// The set of keys in the interaction list for each non-empty key.
    pub interaction_list: HashMap<u64, HashSet<u64>>,
    /// The index set of particles associated with each leaf key.
    pub leaf_key_to_particles: HashMap<u64, HashSet<usize>>,
    /// The set of all non-empty keys in the tree.
    pub all_keys: HashSet<u64>,
    /// The type of the octree.
    pub octree_type: OctreeType,
    /// Statistics for the tree.
    pub statistics: Statistics,
}

impl Octree {
    /// The fields of the tree belong together: the keys of the tree are the cells
    /// that contain a key of a particle, and the maps say of each of them what
    /// their names promise.
    pub open spec fn wf(self) -> bool {
        let leaves: Seq<u64> = self.particle_keys@;
        &&& leaves.len() > 0
        &&& all_valid_seq(leaves)
        &&& is_max_level(self.max_level, leaves)
        &&& forall|a: u64| self.all_keys@.contains(a) <==> is_tree_key(a, leaves, leaves.len() as int)
        &&& forall|l: u64| self.level_keys@.contains_key(l) <==> l <= self.max_level
        &&& forall|l: u64, a: u64|
            l <= self.max_level ==> ((#[trigger] self.level_keys@[l]@.contains(a)) <==> (
            is_tree_key(a, leaves, leaves.len() as int) && raw_key(a).level_spec() == l))
        &&& self.near_field@.dom() == self.all_keys@
        &&& forall|k: u64|
            self.all_keys@.contains(k) ==> (#[trigger] self.near_field@[k])@ == present_near_field(
                k,
                self.all_keys@,
            )
        &&& self.interaction_list@.dom() == self.all_keys@
        &&& forall|k: u64|
            self.all_keys@.contains(k) ==> (#[trigger] self.interaction_list@[k])@
                == present_interaction_list(k, self.all_keys@)
        &&& self.leaf_key_to_particles@.dom() == leaves.to_set()
        &&& forall|k: u64|
            leaves.contains(k) ==> (#[trigger] self.leaf_key_to_particles@[k])@ == indices_of(
                leaves,
                k,
                leaves.len() as int,
            )
        &&& self.statistics.number_of_particles == leaves.len()
        &&& self.statistics.max_level == self.max_level
        &&& self.statistics.number_of_keys == self.all_keys@.len()
        &&& self.statistics.number_of_leafs == leaves.to_set().len()
        &&& is_extent(
            self.statistics.minimum_number_of_particles_in_leaf,
            self.statistics.maximum_number_of_particles_in_leaf,
            leaves,
        )
    }
}

/// `low` and `high` are the smallest and the largest number of particles in a leaf.
pub open spec fn is_extent(low: usize, high: usize, leaves: Seq<u64>) -> bool {
    &&& forall|k: u64|
        leaves.contains(k) ==> low <= (#[trigger] indices_of(leaves, k, leaves.len() as int)).len()
            <= high
    &&& exists|k: u64|
        leaves.contains(k) && (#[trigger] indices_of(leaves, k, leaves.len() as int)).len() == low
    &&& exists|k: u64|
        leaves.contains(k) && (#[trigger] indices_of(leaves, k, leaves.len() as int)).len() == high
}

/// The smallest and the largest number of particles in a leaf.
pub fn leaf_extent(particle_keys: &KeyArray, leaf_map: &HashMap<u64, HashSet<usize>>) -> (r: (
    usize,
    usize,
))
    requires
        particle_keys@.len() > 0,
        leaf_map@.dom() == particle_keys@.to_set(),
        forall|k: u64|
            particle_keys@.contains(k) ==> (#[trigger] leaf_map@[k])@ == indices_of(
                particle_keys@,
                k,
                particle_keys@.len() as int,
            ),
    ensures
        is_extent(r.0, r.1, particle_keys@),
{
    broadcast use vstd::std_specs::hash::group_hash_axioms;

    let keys: Vec<u64> = particle_keys.to_vec();
    let ghost whole: int = keys@.len() as int;
    proof {
        assert(keys@.contains(keys@[0]));
    }
    let first: usize = leaf_map.get(&keys[0]).unwrap().len();
    let mut low: usize = first;
    let mut high: usize = first;
    let mut i: usize = 1;
    while i < keys.len()
        invariant
            1 <= i <= keys@.len(),
            whole == keys@.len(),
            leaf_map@.dom() == keys@.to_set(),
            forall|k: u64|
                keys@.contains(k) ==> (#[trigger] leaf_map@[k])@ == indices_of(keys@, k, whole),
            forall|j: int|
                0 <= j < i ==> low <= (#[trigger] indices_of(keys@, keys@[j], whole)).len() <= high,
            exists|j: int| 0 <= j < i && (#[trigger] indices_of(keys@, keys@[j], whole)).len() == low,
            exists|j: int|
                0 <= j < i && (#[trigger] indices_of(keys@, keys@[j], whole)).len() == high,
        decreases keys@.len() - i,
    {
        proof {
            assert(keys@.contains(keys@[i as int]));
        }
        let count: usize = leaf_map.get(&keys[i]).unwrap().len();
        if count < low {
            low = count;
        }
        if count > high {
            high = count;
        }
        i = i + 1;
    }
    proof {
        assert forall|k: u64| keys@.contains(k) implies low <= (#[trigger] indices_of(
            keys@,
            k,
            whole,
        )).len() <= high by {
            let j: int = choose|j: int| 0 <= j < keys@.len() && keys@[j] == k;
            assert(low <= indices_of(keys@, keys@[j], whole).len() <= high);
        }
        let a: int = choose|j: int|
            0 <= j < keys@.len() && (#[trigger] indices_of(keys@, keys@[j], whole)).len() == low;
        assert(keys@.contains(keys@[a]));
        let b: int = choose|j: int|
            0 <= j < keys@.len() && (#[trigger] indices_of(keys@, keys@[j], whole)).len() == high;
        assert(keys@.contains(keys@[b]));
    }
    (low, high)
}

/// The regular octree of particles at grid points: the cells of level `max_level`
/// that hold a particle, the cells above them, and the maps and figures of the tree.
pub fn regular_octree(points: &Vec<[u64; 3]>, max_level: u64) -> (r: Octree)
    requires
        points@.len() > 0,
        max_level <= 16,
        forall|i: int|
            0 <= i < points@.len() ==> (#[trigger] points@[i])[0] < GRID_SIZE && points@[i][1]
                < GRID_SIZE && points@[i][2] < GRID_SIZE,
    ensures
        r.wf(),
        r.particle_keys@ == point_keys(points@, max_level),
        r.octree_type == OctreeType::Regular,
        r.statistics.creation_time_millis == 0,
{
    let keys: Vec<u64> = encode_points(points, max_level);
    let particle_keys: KeyArray = KeyArray::from_vec(keys);
    let info: (u64, HashSet<u64>, HashMap<u64, HashSet<u64>>) = compute_level_information(
        &particle_keys,
    );
    let level: u64 = info.0;
    let all_keys: HashSet<u64> = info.1;
    let level_keys: HashMap<u64, HashSet<u64>> = info.2;
    let near_field: HashMap<u64, HashSet<u64>> = compute_near_field_map(&all_keys);
    let interaction_list: HashMap<u64, HashSet<u64>> = compute_interaction_list_map(&all_keys);
    let leaf_key_to_particles: HashMap<u64, HashSet<usize>> = compute_leaf_map(&particle_keys);
    let extent: (usize, usize) = leaf_extent(&particle_keys, &leaf_key_to_particles);
    let statistics: Statistics = Statistics {
        number_of_particles: particle_keys.len(),
        max_level: level,
        number_of_leafs: leaf_key_to_particles.len(),
        number_of_keys: all_keys.len(),
        creation_time_millis: 0,
        minimum_number_of_particles_in_leaf: extent.0,
        maximum_number_of_particles_in_leaf: extent.1,
    };
    Octree {
        particle_keys,
        max_level: level,
        level_keys,
        near_field,
        interaction_list,
        leaf_key_to_particles,
        all_keys,
        octree_type: OctreeType::Regular,
        statistics,
    }
}

/// The grid of a tree for export: one voxel for each leaf, and the particles.
/// Returns the leaves in the order in which their voxels stand in the grid, the
/// order in which the particles name them first, and the grid.
pub fn export_to_vtk(tree: &Octree) -> (r: (Vec<u64>, VtkModel))
    requires
        tree.wf(),
        9 * tree.particle_keys@.len() + 8 <= usize::MAX,
    ensures
        r.0@ == first_occurrences(tree.particle_keys@),
        r.0@.no_duplicates(),
        r.0@.to_set() == tree.particle_keys@.to_set(),
        r.1.describes(r.0@, tree.particle_keys@.len()),
{
    let particles: Vec<u64> = tree.particle_keys.to_vec();
    let leaves: Vec<u64> = unique_keys(&particles);
    proof {
        lemma_first_occurrences_length(particles@);
        assert forall|i: int| 0 <= i < leaves@.len() implies raw_key(#[trigger] leaves@[i]).wf() by {
            assert(leaves@.contains(leaves@[i]));
            assert(particles@.contains(leaves@[i]));
            let j: int = choose|j: int| 0 <= j < particles@.len() && particles@[j] == leaves@[i];
            assert(raw_key(particles@[j]).wf());
        }
        assert(leaves@.to_set() =~= particles@.to_set());
    }
    let model: VtkModel = vtk_model(&leaves, particles.len());
    (leaves, model)
}

} // verus!
