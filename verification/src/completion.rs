//! Completion: filling the room between keys with the coarsest cells that fit.

use vstd::prelude::*;
use crate::powers::{eight_pow, lemma_pow_values};
use crate::morton::{
    lemma_child, lemma_covers_levels, lemma_end_bound, lemma_overlap_nested, lemma_parent,
    lemma_parent_of_child, lemma_width_positive, MortonKey, CODE_LIMIT,
};
use crate::linear::{
    all_wf, covered_by, is_complete, is_linear, is_sorted, lemma_linearized_linear,
    lemma_refinement_length, lemma_sorted_pair, lemma_tiles_concat, lemma_tiles_linear,
    lemma_tiles_push, linearize, linearized, refines, tiles,
};

verus! {

/// The code `v`, moved into the range from `lo` to `hi` if it lies outside.
pub open spec fn clamp(v: nat, lo: nat, hi: nat) -> nat {
    if v < lo {
        lo
    } else if v > hi {
        hi
    } else {
        v
    }
}

/// The cell lies within the codes from `lo` up to `hi`.
pub open spec fn inside(k: MortonKey, lo: nat, hi: nat) -> bool {
    lo <= k.code() && k.end() <= hi
}

/// Every cell of the sequence is as coarse as the range allows: its parent does
/// not lie within the codes from `lo` up to `hi`.
pub open spec fn coarsest_in(s: Seq<MortonKey>, lo: nat, hi: nat) -> bool {
    forall|j: int|
        0 <= j < s.len() ==> (#[trigger] s[j]).level_spec() > 0 && !inside(
            s[j].parent_spec(),
            lo,
            hi,
        )
}

/// The first code between two keys `a < b` in Morton order: the end of `a`, or
/// the start of `a` where `a` contains `b` and its descendants before `b` lie between.
pub open spec fn gap_start(a: MortonKey, b: MortonKey) -> nat {
    if a.covers(b) {
        a.code()
    } else {
        a.end()
    }
}

/// Coarsest cells after coarsest cells are coarsest cells.
proof fn lemma_coarsest_concat(s: Seq<MortonKey>, t: Seq<MortonKey>, lo: nat, hi: nat)
    requires
        coarsest_in(s, lo, hi),
        coarsest_in(t, lo, hi),
    ensures
        coarsest_in(s + t, lo, hi),
{
    let u: Seq<MortonKey> = s + t;
    assert forall|j: int| 0 <= j < u.len() implies (#[trigger] u[j]).level_spec() > 0 && !inside(
        u[j].parent_spec(),
        lo,
        hi,
    ) by {
        if j < s.len() {
            assert(u[j] == s[j]);
        } else {
            assert(u[j] == t[j - s.len()]);
        }
    }
}

/// How many cells at most fill the part of a cell that lies in a range: none if
/// no end of the range cuts the cell, `d` if one end cuts it, and `2 d - 8` if
/// both do, where `d` is seven for each level below the cell.
pub open spec fn part_bound(d: int, cut_low: bool, cut_high: bool) -> int {
    if cut_low && cut_high {
        2 * d - 8
    } else if cut_low || cut_high {
        d
    } else {
        0
    }
}

/// How many cells at most fill the cell of a key between `lo` and `hi`.
pub open spec fn fill_bound(node: MortonKey, lo: nat, hi: nat) -> int {
    part_bound(
        7 * (16 - node.level_spec()),
        node.code() < lo && lo < node.end(),
        node.code() < hi && hi < node.end(),
    )
}

/// How many cells at most fill the child `j` of a cell that starts at `base` and
/// whose children are `w` codes wide: one if the child lies in the range, none
/// if it lies outside, and as many as fill its part otherwise.
pub open spec fn child_cost(base: int, w: int, j: int, lo: int, hi: int, d: int) -> int {
    let a: int = base + j * w;
    let b: int = a + w;
    if lo <= a && b <= hi {
        1
    } else if b <= lo || a >= hi {
        0
    } else {
        part_bound(d, a < lo && lo < b, a < hi && hi < b)
    }
}

/// How many cells at most fill the first `i` children of a cell.
pub open spec fn prefix_cost(base: int, w: int, i: int, lo: int, hi: int, d: int) -> int
    decreases i,
{
    if i <= 0 {
        0
    } else {
        prefix_cost(base, w, i - 1, lo, hi, d) + child_cost(base, w, i - 1, lo, hi, d)
    }
}

/// The eight children of a cell that does not lie in the range are filled by no
/// more cells than the bound of the cell allows.
proof fn lemma_cost_total(base: int, w: int, lo: int, hi: int, d: int)
    requires
        w >= 1,
        lo <= hi,
        d >= 7 || (d == 0 && w == 1),
        !(lo <= base && base + 8 * w <= hi),
    ensures
        prefix_cost(base, w, 8, lo, hi, d) <= part_bound(
            d + 7,
            base < lo && lo < base + 8 * w,
            base < hi && hi < base + 8 * w,
        ),
{
    reveal_with_fuel(prefix_cost, 9);
}

/// The coarsest cells below `node` that tile the part of `node` between `lo` and `hi`.
fn fill(node: MortonKey, lo: u64, hi: u64) -> (r: Vec<MortonKey>)
    requires
        node.wf(),
        node.level_spec() < 16,
        lo <= hi <= CODE_LIMIT,
        !inside(node, lo as nat, hi as nat),
    ensures
        tiles(
            r@,
            clamp(node.code(), lo as nat, hi as nat),
            clamp(node.end(), lo as nat, hi as nat),
        ),
        coarsest_in(r@, lo as nat, hi as nat),
        r@.len() <= fill_bound(node, lo as nat, hi as nat),
    decreases 16 - node.level_spec(),
{
    let mut out: Vec<MortonKey> = Vec::new();
    let mut i: u64 = 0;
    let ghost w: nat = crate::morton::cell_width(node.level_spec() + 1);
    let ghost d: int = 7 * (15 - node.level_spec());
    proof {
        lemma_child(node, 0);
        lemma_end_bound(node);
        assert(0 * w == 0) by (nonlinear_arith);
    }
    while i < 8
        invariant
            i <= 8,
            node.wf(),
            node.level_spec() < 16,
            lo <= hi <= CODE_LIMIT,
            !inside(node, lo as nat, hi as nat),
            w == crate::morton::cell_width(node.level_spec() + 1),
            node.width() == 8 * w,
            d == 7 * (15 - node.level_spec()),
            tiles(
                out@,
                clamp(node.code(), lo as nat, hi as nat),
                clamp((node.code() + i * w) as nat, lo as nat, hi as nat),
            ),
            coarsest_in(out@, lo as nat, hi as nat),
            out@.len() <= prefix_cost(
                node.code() as int,
                w as int,
                i as int,
                lo as int,
                hi as int,
                d,
            ),
        decreases 8 - i,
    {
        let c: MortonKey = node.child(i);
        proof {
            lemma_child(node, i as nat);
            lemma_parent_of_child(node, i as nat);
            lemma_width_positive(c);
            lemma_end_bound(c);
            lemma_pow_values();
            assert(prefix_cost(node.code() as int, w as int, i + 1, lo as int, hi as int, d)
                == prefix_cost(node.code() as int, w as int, i as int, lo as int, hi as int, d)
                + child_cost(node.code() as int, w as int, i as int, lo as int, hi as int, d));
            assert(c.code() == node.code() + i * w);
            assert(c.end() == node.code() + i * w + w) by (nonlinear_arith)
                requires
                    c.end() == node.code() + (i + 1) * w,
            ;
        }
        let start: u64 = c.position();
        let end: u64 = c.position_end();
        let ghost before: Seq<MortonKey> = out@;
        if lo <= start && end <= hi {
            proof {
                lemma_tiles_push(
                    before,
                    clamp(node.code(), lo as nat, hi as nat),
                    start as nat,
                    c,
                );
                lemma_coarsest_concat(before, seq![c], lo as nat, hi as nat);
                assert(before + seq![c] =~= before.push(c));
            }
            out.push(c);
        } else if end <= lo || start >= hi {
        } else {
            proof {
                if c.level_spec() == 16 {
                    assert(eight_pow(0) == 1);
                }
            }
            let mut t: Vec<MortonKey> = fill(c, lo, hi);
            proof {
                lemma_tiles_concat(
                    before,
                    t@,
                    clamp(node.code(), lo as nat, hi as nat),
                    clamp(start as nat, lo as nat, hi as nat),
                    clamp(end as nat, lo as nat, hi as nat),
                );
                lemma_coarsest_concat(before, t@, lo as nat, hi as nat);
            }
            out.append(&mut t);
        }
        i = i + 1;
    }
    proof {
        lemma_width_positive(node.child_spec(0));
        if node.level_spec() == 15 {
            assert(eight_pow(0) == 1);
        }
        lemma_cost_total(node.code() as int, w as int, lo as int, hi as int, d);
    }
    out
}

/// A tiling of an empty range has no cells.
pub proof fn lemma_tiles_nothing(s: Seq<MortonKey>, at: nat)
    requires
        tiles(s, at, at),
    ensures
        s.len() == 0,
{
    if s.len() > 0 {
        crate::linear::lemma_tiles_bounds(s, at, at, 0);
        lemma_width_positive(s[0]);
    }
}

/// The coarsest cells that tile the room between two keys `a < b`: every cell
/// that lies after `a` and before `b` in Morton order, contains neither, and
/// whose parent does not lie between them too. The cells come in Morton order.
pub fn complete_region(a: &MortonKey, b: &MortonKey) -> (r: Vec<MortonKey>)
    requires
        a.wf(),
        b.wf(),
        a.morton < b.morton,
    ensures
        tiles(r@, gap_start(*a, *b), b.code()),
        coarsest_in(r@, gap_start(*a, *b), b.code()),
        r@.len() <= 216,
{
    let node: MortonKey = a.finest_ancestor(b);
    proof {
        lemma_sorted_pair(*a, *b);
        lemma_width_positive(*a);
        lemma_width_positive(*b);
        lemma_end_bound(*b);
        lemma_pow_values();
        lemma_covers_levels(node, *a);
        lemma_covers_levels(node, *b);
    }
    let lo: u64 = if a.contains(b) {
        a.position()
    } else {
        a.position_end()
    };
    let hi: u64 = b.position();
    fill(node, lo, hi)
}

/// The code at which a block ends: where the next block starts, or the end of the cube.
pub open spec fn block_end(next: Option<MortonKey>) -> nat {
    match next {
        Some(n) => n.code(),
        None => eight_pow(16),
    }
}

/// The cell has a point in common with a key of `l` or with the key after the
/// block, or starts before the block does.
pub open spec fn touches(
    x: MortonKey,
    l: Seq<MortonKey>,
    lower: nat,
    next: Option<MortonKey>,
) -> bool {
    (exists|i: int| 0 <= i < l.len() && x.overlaps(#[trigger] l[i])) || (next.is_some()
        && x.overlaps(next.unwrap())) || x.code() < lower
}

/// The cell is one that completion puts between the keys `l`: it is not the root
/// and its parent reaches into a key of `l`, into the key after the block or out
/// of the block, so no coarser cell could stand in its place.
pub open spec fn is_filler(
    k: MortonKey,
    l: Seq<MortonKey>,
    lower: nat,
    next: Option<MortonKey>,
) -> bool {
    k.level_spec() > 0 && touches(k.parent_spec(), l, lower, next)
}

/// Every key of the sequence is a key of `l` or a filler.
pub open spec fn all_marked(
    s: Seq<MortonKey>,
    l: Seq<MortonKey>,
    lower: nat,
    next: Option<MortonKey>,
) -> bool {
    forall|j: int| 0 <= j < s.len() ==> l.contains(#[trigger] s[j]) || is_filler(s[j], l, lower, next)
}

/// The first `upto` keys of `l` occur in the sequence.
pub open spec fn holds_first(s: Seq<MortonKey>, l: Seq<MortonKey>, upto: int) -> bool {
    forall|j: int| 0 <= j < upto ==> s.contains(#[trigger] l[j])
}

/// Every cell that strictly contains `a` touches the keys.
pub open spec fn anchored(
    a: MortonKey,
    l: Seq<MortonKey>,
    lower: nat,
    next: Option<MortonKey>,
) -> bool {
    forall|x: MortonKey| x.wf() && #[trigger] x.covers(a) && x != a ==> touches(x, l, lower, next)
}

/// Every cell that strictly contains a key of `l` touches the keys.
proof fn lemma_anchored_member(l: Seq<MortonKey>, lower: nat, next: Option<MortonKey>, i: int)
    requires
        all_wf(l),
        0 <= i < l.len(),
    ensures
        anchored(l[i], l, lower, next),
{
    assert forall|x: MortonKey| x.wf() && #[trigger] x.covers(l[i]) && x != l[i] implies touches(
        x,
        l,
        lower,
        next,
    ) by {
        lemma_width_positive(l[i]);
        assert(x.overlaps(l[i]));
    }
}

/// Every cell that strictly contains the key after the block touches it.
proof fn lemma_anchored_next(l: Seq<MortonKey>, lower: nat, n: MortonKey)
    requires
        n.wf(),
    ensures
        anchored(n, l, lower, Some(n)),
{
    assert forall|x: MortonKey| x.wf() && #[trigger] x.covers(n) && x != n implies touches(
        x,
        l,
        lower,
        Some(n),
    ) by {
        lemma_width_positive(n);
        assert(x.overlaps(n));
    }
}

/// A child of a cell that contains a key of `l` is anchored, and is a filler
/// unless it is itself that key.
proof fn lemma_anchored_child(
    anc: MortonKey,
    i: nat,
    l: Seq<MortonKey>,
    lower: nat,
    next: Option<MortonKey>,
    at: int,
)
    requires
        anc.wf(),
        anc.level_spec() < 16,
        i < 8,
        all_wf(l),
        0 <= at < l.len(),
        anc.covers(l[at]),
    ensures
        anchored(anc.child_spec(i), l, lower, next),
        is_filler(anc.child_spec(i), l, lower, next),
{
    let f: MortonKey = anc.child_spec(i);
    lemma_child(anc, i);
    lemma_parent_of_child(anc, i);
    lemma_width_positive(l[at]);
    lemma_width_positive(f);
    assert(anc.overlaps(l[at]));
    assert forall|x: MortonKey| x.wf() && #[trigger] x.covers(f) && x != f implies touches(
        x,
        l,
        lower,
        next,
    ) by {
        lemma_covers_levels(x, f);
        lemma_width_positive(anc);
        assert(x.overlaps(anc));
        lemma_overlap_nested(x, anc);
        assert(x.overlaps(l[at]));
    }
}

/// The cells that complete the room between two anchored keys are fillers.
proof fn lemma_region_fillers(
    t: Seq<MortonKey>,
    a: MortonKey,
    b: MortonKey,
    l: Seq<MortonKey>,
    lower: nat,
    next: Option<MortonKey>,
)
    requires
        a.wf(),
        b.wf(),
        a.morton < b.morton,
        tiles(t, gap_start(a, b), b.code()),
        coarsest_in(t, gap_start(a, b), b.code()),
        anchored(a, l, lower, next),
        anchored(b, l, lower, next),
    ensures
        all_marked(t, l, lower, next),
{
    let lo: nat = gap_start(a, b);
    let hi: nat = b.code();
    assert forall|j: int| 0 <= j < t.len() implies l.contains(#[trigger] t[j]) || is_filler(
        t[j],
        l,
        lower,
        next,
    ) by {
        let e: MortonKey = t[j];
        let p: MortonKey = e.parent_spec();
        crate::linear::lemma_tiles_bounds(t, lo, hi, j);
        lemma_parent(e);
        lemma_width_positive(e);
        lemma_width_positive(a);
        lemma_width_positive(b);
        lemma_sorted_pair(a, b);
        if p.code() < lo {
            assert(p.overlaps(a));
            lemma_overlap_nested(p, a);
            if a.level_spec() <= p.level_spec() {
                assert(a.covers(p));
                assert(a.covers(e));
                if a.covers(b) {
                    assert(false);
                } else {
                    assert(false);
                }
            }
            assert(p.covers(a));
        } else {
            assert(p.end() > hi);
            assert(p.overlaps(b));
            lemma_overlap_nested(p, b);
            if b.level_spec() <= p.level_spec() {
                assert(b.covers(p));
                assert(false);
            }
            assert(p.covers(b));
        }
    }
}

/// Marked keys after marked keys are marked keys.
proof fn lemma_marked_concat(
    s: Seq<MortonKey>,
    t: Seq<MortonKey>,
    l: Seq<MortonKey>,
    lower: nat,
    next: Option<MortonKey>,
)
    requires
        all_marked(s, l, lower, next),
        all_marked(t, l, lower, next),
    ensures
        all_marked(s + t, l, lower, next),
{
    let u: Seq<MortonKey> = s + t;
    assert forall|j: int| 0 <= j < u.len() implies l.contains(#[trigger] u[j]) || is_filler(
        u[j],
        l,
        lower,
        next,
    ) by {
        if j < s.len() {
            assert(u[j] == s[j]);
        } else {
            assert(u[j] == t[j - s.len()]);
        }
    }
}

/// What a sequence holds, it still holds with more keys after it.
proof fn lemma_holds_concat(s: Seq<MortonKey>, t: Seq<MortonKey>, l: Seq<MortonKey>, upto: int)
    requires
        holds_first(s, l, upto),
    ensures
        holds_first(s + t, l, upto),
{
    let u: Seq<MortonKey> = s + t;
    assert forall|j: int| 0 <= j < upto implies u.contains(#[trigger] l[j]) by {
        assert(s.contains(l[j]));
        let w: int = choose|w: int| 0 <= w < s.len() && s[w] == l[j];
        assert(u[w] == l[j]);
    }
}

/// One step of the completion of a block: the key `a` and the cells after it join
/// what stands before them.
proof fn lemma_block_step(
    before: Seq<MortonKey>,
    a: MortonKey,
    t: Seq<MortonKey>,
    l: Seq<MortonKey>,
    lower: nat,
    next: Option<MortonKey>,
    i: int,
    start: nat,
    stop: nat,
)
    requires
        0 <= i < l.len(),
        l[i] == a,
        a.wf(),
        tiles(before, start, a.code()),
        holds_first(before, l, i),
        all_marked(before, l, lower, next),
        tiles(t, a.end(), stop),
        all_marked(t, l, lower, next),
    ensures
        tiles(before.push(a) + t, start, stop),
        holds_first(before.push(a) + t, l, i + 1),
        all_marked(before.push(a) + t, l, lower, next),
{
    let joined: Seq<MortonKey> = before.push(a) + t;
    assert(tiles(joined, start, stop)) by {
        lemma_tiles_push(before, start, a.code(), a);
        lemma_tiles_concat(before.push(a), t, start, a.end(), stop);
    }
    assert(all_marked(joined, l, lower, next)) by {
        lemma_marked_push(before, a, l, lower, next);
        lemma_marked_concat(before.push(a), t, l, lower, next);
    }
    assert(holds_first(joined, l, i + 1)) by {
        lemma_holds_concat(before, seq![a] + t, l, i);
        assert(before + (seq![a] + t) =~= joined);
        assert(joined[before.len() as int] == a);
        assert(joined.contains(l[i]));
    }
}

/// Marked keys with a key of `l` after them are marked keys.
proof fn lemma_marked_push(
    s: Seq<MortonKey>,
    a: MortonKey,
    l: Seq<MortonKey>,
    lower: nat,
    next: Option<MortonKey>,
)
    requires
        all_marked(s, l, lower, next),
        l.contains(a),
    ensures
        all_marked(s.push(a), l, lower, next),
{
    let u: Seq<MortonKey> = s.push(a);
    assert forall|j: int| 0 <= j < u.len() implies l.contains(#[trigger] u[j]) || is_filler(
        u[j],
        l,
        lower,
        next,
    ) by {
        if j < s.len() {
            assert(u[j] == s[j]);
        }
    }
}

/// The cells before the first key of a block that starts the cube: the first child
/// of the deepest cell that holds both the first corner of the cube and the key,
/// and the cells between that child and the key.
fn block_front(first: MortonKey, Ghost(l): Ghost<Seq<MortonKey>>, Ghost(next): Ghost<
    Option<MortonKey>,
>) -> (r: Vec<MortonKey>)
    requires
        all_wf(l),
        l.len() > 0,
        l[0] == first,
    ensures
        tiles(r@, 0, first.code()),
        all_marked(r@, l, 0, next),
        r@.len() <= 217,
        first.code() == 0 ==> r@.len() == 0,
{
    let mut out: Vec<MortonKey> = Vec::new();
    if first.position() == 0 {
        return out;
    }
    let origin: MortonKey = MortonKey::root().first_descendant();
    let anc: MortonKey = origin.finest_ancestor(&first);
    proof {
        lemma_covers_levels(anc, origin);
        lemma_covers_levels(anc, first);
        lemma_width_positive(first);
        lemma_child(anc, 0);
        assert(0 * crate::morton::cell_width(anc.level_spec() + 1) == 0) by (nonlinear_arith);
        lemma_anchored_child(anc, 0, l, 0, next, 0);
        lemma_anchored_member(l, 0, next, 0);
    }
    let f: MortonKey = anc.child(0);
    proof {
        lemma_width_positive(f);
        lemma_width_positive(origin);
        if f.overlaps(first) {
            lemma_overlap_nested(f, first);
            if f.level_spec() <= first.level_spec() {
                assert(f.covers(origin));
                assert(f.covers(anc));
                lemma_covers_levels(f, anc);
            }
            assert(false);
        }
        crate::morton::lemma_morton_order(f, first);
    }
    let mut t: Vec<MortonKey> = complete_region(&f, &first);
    let ghost tv: Seq<MortonKey> = t@;
    proof {
        lemma_region_fillers(tv, f, first, l, 0, next);
        assert(tiles(seq![f], 0, f.end())) by {
            lemma_tiles_push(Seq::<MortonKey>::empty(), 0, 0, f);
            assert(Seq::<MortonKey>::empty().push(f) =~= seq![f]);
        }
        lemma_tiles_concat(seq![f], tv, 0, f.end(), first.code());
        assert(all_marked(seq![f], l, 0, next));
        lemma_marked_concat(seq![f], tv, l, 0, next);
    }
    out.push(f);
    out.append(&mut t);
    proof {
        assert(out@ =~= seq![f] + tv);
    }
    out
}

/// The cells after the last key of a block: up to the key `next`, or, where there
/// is none, up to the end of the cube, the last of them the last child of the
/// deepest cell that holds both the key and the last corner of the cube.
fn block_back(
    last: MortonKey,
    next: Option<MortonKey>,
    Ghost(l): Ghost<Seq<MortonKey>>,
    Ghost(lower): Ghost<nat>,
) -> (r: Vec<MortonKey>)
    requires
        all_wf(l),
        l.len() > 0,
        l[l.len() - 1] == last,
        next.is_some() ==> next.unwrap().wf() && last.end() <= next.unwrap().code(),
    ensures
        tiles(r@, last.end(), block_end(next)),
        all_marked(r@, l, lower, next),
        r@.len() <= 217,
        last.end() == block_end(next) ==> r@.len() == 0,
{
    let ghost n: int = l.len() as int;
    proof {
        lemma_anchored_member(l, lower, next, n - 1);
        lemma_end_bound(last);
        lemma_width_positive(last);
        lemma_pow_values();
    }
    match next {
        Some(after) => {
            proof {
                crate::morton::lemma_morton_order(last, after);
                lemma_width_positive(after);
                lemma_anchored_next(l, lower, after);
            }
            let t: Vec<MortonKey> = complete_region(&last, &after);
            proof {
                lemma_region_fillers(t@, last, after, l, lower, next);
                if last.end() == after.code() {
                    lemma_tiles_nothing(t@, last.end());
                }
            }
            t
        },
        None => {
            let mut out: Vec<MortonKey> = Vec::new();
            if last.position_end() == CODE_LIMIT {
                return out;
            }
            let corner: MortonKey = MortonKey::root().last_descendant();
            let anc: MortonKey = last.finest_ancestor(&corner);
            proof {
                lemma_covers_levels(anc, corner);
                lemma_covers_levels(anc, last);
                lemma_end_bound(anc);
                lemma_child(anc, 7);
                lemma_anchored_child(anc, 7, l, lower, next, n - 1);
            }
            let g: MortonKey = anc.child(7);
            proof {
                lemma_width_positive(g);
                lemma_width_positive(corner);
                assert(g.end() == eight_pow(16));
                if g.overlaps(last) {
                    lemma_overlap_nested(g, last);
                    if g.level_spec() <= last.level_spec() {
                        assert(g.covers(corner));
                        assert(g.covers(anc));
                        lemma_covers_levels(g, anc);
                    }
                    assert(false);
                }
                crate::morton::lemma_morton_order(last, g);
            }
            let mut t: Vec<MortonKey> = complete_region(&last, &g);
            let ghost tv: Seq<MortonKey> = t@;
            proof {
                lemma_region_fillers(tv, last, g, l, lower, next);
                lemma_tiles_push(tv, last.end(), g.code(), g);
                assert(all_marked(seq![g], l, lower, next));
                lemma_marked_concat(tv, seq![g], l, lower, next);
                assert(tv + seq![g] =~= tv.push(g));
            }
            out.append(&mut t);
            out.push(g);
            proof {
                assert(out@ =~= tv.push(g));
            }
            out
        },
    }
}

/// The keys of a linear octree and, between each two of them, the cells that
/// complete the room, after what `front` holds already.
fn block_middle(l: &Vec<MortonKey>, front: Vec<MortonKey>, Ghost(start): Ghost<nat>, Ghost(
    next,
): Ghost<Option<MortonKey>>) -> (r: Vec<MortonKey>)
    requires
        l@.len() > 0,
        is_linear(l@),
        tiles(front@, start, l@[0].code()),
        all_marked(front@, l@, start, next),
    ensures
        tiles(r@, start, l@[l@.len() - 1].end()),
        holds_first(r@, l@, l@.len() as int),
        all_marked(r@, l@, start, next),
        r@.len() <= front@.len() + l@.len() + 216 * (l@.len() - 1),
{
    let n: usize = l.len();
    let ghost front_len: nat = front@.len();
    let mut out: Vec<MortonKey> = front;
    let mut i: usize = 0;
    while i < n - 1
        invariant
            n == l@.len(),
            n > 0,
            i <= n - 1,
            is_linear(l@),
            tiles(out@, start, l@[i as int].code()),
            holds_first(out@, l@, i as int),
            all_marked(out@, l@, start, next),
            out@.len() <= front_len + i + 216 * i,
        decreases n - i,
    {
        let a: MortonKey = l[i];
        let b: MortonKey = l[i + 1];
        proof {
            crate::linear::lemma_linear_pair(l@, i as int, i + 1);
            lemma_width_positive(b);
            lemma_anchored_member(l@, start, next, i as int);
            lemma_anchored_member(l@, start, next, i + 1);
        }
        let mut t: Vec<MortonKey> = complete_region(&a, &b);
        let ghost before: Seq<MortonKey> = out@;
        let ghost tv: Seq<MortonKey> = t@;
        proof {
            lemma_region_fillers(tv, a, b, l@, start, next);
            lemma_block_step(before, a, tv, l@, start, next, i as int, start, b.code());
        }
        out.push(a);
        out.append(&mut t);
        proof {
            assert(out@ =~= before.push(a) + tv);
        }
        i = i + 1;
    }
    let last: MortonKey = l[n - 1];
    let ghost before: Seq<MortonKey> = out@;
    proof {
        lemma_width_positive(last);
        assert(tiles(Seq::<MortonKey>::empty(), last.end(), last.end()));
        assert(all_marked(Seq::<MortonKey>::empty(), l@, start, next));
        lemma_block_step(
            before,
            last,
            Seq::<MortonKey>::empty(),
            l@,
            start,
            next,
            n - 1,
            start,
            last.end(),
        );
        assert(before.push(last) + Seq::<MortonKey>::empty() =~= before.push(last));
    }
    out.push(last);
    out
}

/// The cells that fill a range below the first key are fillers.
proof fn lemma_front_fillers(
    t: Seq<MortonKey>,
    first: MortonKey,
    l: Seq<MortonKey>,
    lower: nat,
    next: Option<MortonKey>,
)
    requires
        all_wf(l),
        l.len() > 0,
        l[0] == first,
        lower <= first.code(),
        tiles(t, lower, first.code()),
        coarsest_in(t, lower, first.code()),
    ensures
        all_marked(t, l, lower, next),
{
    assert forall|j: int| 0 <= j < t.len() implies l.contains(#[trigger] t[j]) || is_filler(
        t[j],
        l,
        lower,
        next,
    ) by {
        let e: MortonKey = t[j];
        let p: MortonKey = e.parent_spec();
        crate::linear::lemma_tiles_bounds(t, lower, first.code(), j);
        lemma_parent(e);
        lemma_width_positive(e);
        lemma_width_positive(first);
        if p.code() >= lower {
            assert(p.overlaps(l[0]));
        }
    }
}

/// The cells that fill the room from the code `lower` up to the first key of a
/// block that does not start the cube.
fn block_front_from(first: MortonKey, lower: u64, Ghost(l): Ghost<Seq<MortonKey>>, Ghost(
    next,
): Ghost<Option<MortonKey>>) -> (r: Vec<MortonKey>)
    requires
        all_wf(l),
        l.len() > 0,
        l[0] == first,
        lower <= first.code(),
    ensures
        tiles(r@, lower as nat, first.code()),
        all_marked(r@, l, lower as nat, next),
        r@.len() <= 217,
        lower == first.code() ==> r@.len() == 0,
{
    proof {
        lemma_pow_values();
        lemma_width_positive(first);
    }
    let root: MortonKey = MortonKey::root();
    let t: Vec<MortonKey> = fill(root, lower, first.position());
    proof {
        lemma_front_fillers(t@, first, l, lower as nat, next);
        if lower == first.code() {
            lemma_tiles_nothing(t@, lower as nat);
        }
    }
    t
}

/// How many cells at most the completion of a block around the keys `l` has:
/// the keys, 216 cells between each two of them, and 217 before the first and
/// after the last, or none where the block starts with the first key or ends
/// with the last.
pub open spec fn completion_bound(l: Seq<MortonKey>, lower: nat, next: Option<MortonKey>) -> int {
    l.len() + 216 * (l.len() - 1) + (if l[0].code() == lower {
        0int
    } else {
        217
    }) + (if l[l.len() - 1].end() == block_end(next) {
        0int
    } else {
        217
    })
}

/// Completes a block of a linear octree around sorted keys: the keys that
/// linearizing leaves of `seeds`, and between them, before the first (from the
/// code `lower` on) and after the last (up to the key `next`, or to the end of
/// the cube where there is none) the coarsest cells that fit. A block that
/// starts the cube has the lower end 0.
pub fn complete_block(seeds: &Vec<MortonKey>, lower: u64, next: Option<MortonKey>) -> (r: Vec<
    MortonKey,
>)
    requires
        seeds@.len() > 0,
        all_wf(seeds@),
        is_sorted(seeds@),
        forall|i: int| 0 <= i < seeds@.len() ==> lower <= (#[trigger] seeds@[i]).code(),
        next.is_some() ==> next.unwrap().wf() && forall|i: int|
            0 <= i < seeds@.len() ==> (#[trigger] seeds@[i]).end() <= next.unwrap().code(),
    ensures
        tiles(r@, lower as nat, block_end(next)),
        is_linear(r@),
        holds_first(r@, linearized(seeds@), linearized(seeds@).len() as int),
        all_marked(r@, linearized(seeds@), lower as nat, next),
        r@.len() <= completion_bound(linearized(seeds@), lower as nat, next),
{
    let l: Vec<MortonKey> = linearize(seeds);
    proof {
        lemma_linearized_linear(seeds@);
    }
    let n: usize = l.len();
    let first: MortonKey = l[0];
    let last: MortonKey = l[n - 1];
    proof {
        assert(l@.contains(first));
        crate::linear::lemma_linearized_subset(seeds@, first);
        let w: int = choose|w: int| 0 <= w < seeds@.len() && seeds@[w] == first;
        assert(lower <= seeds@[w].code());
    }
    let front: Vec<MortonKey> = if lower == 0 {
        block_front(first, Ghost(l@), Ghost(next))
    } else {
        block_front_from(first, lower, Ghost(l@), Ghost(next))
    };
    let mut out: Vec<MortonKey> = block_middle(&l, front, Ghost(lower as nat), Ghost(next));
    proof {
        if next.is_some() {
            assert(l@.contains(last));
            crate::linear::lemma_linearized_subset(seeds@, last);
            let w: int = choose|w: int| 0 <= w < seeds@.len() && seeds@[w] == last;
            assert(seeds@[w].end() <= next.unwrap().code());
        }
    }
    let mut back: Vec<MortonKey> = block_back(last, next, Ghost(l@), Ghost(lower as nat));
    proof {
        lemma_tiles_concat(out@, back@, lower as nat, last.end(), block_end(next));
        lemma_marked_concat(out@, back@, l@, lower as nat, next);
        lemma_holds_concat(out@, back@, l@, n as int);
        lemma_tiles_linear(out@ + back@, lower as nat, block_end(next));
    }
    out.append(&mut back);
    out
}

/// Completes sorted keys to a linear octree over the whole cube: the keys that
/// linearizing leaves of `seeds`, and around them the coarsest cells that fit.
pub fn complete_tree(seeds: &Vec<MortonKey>) -> (r: Vec<MortonKey>)
    requires
        seeds@.len() > 0,
        all_wf(seeds@),
        is_sorted(seeds@),
    ensures
        is_complete(r@),
        is_linear(r@),
        holds_first(r@, linearized(seeds@), linearized(seeds@).len() as int),
        all_marked(r@, linearized(seeds@), 0, None),
        r@.len() <= completion_bound(linearized(seeds@), 0, None),
{
    complete_block(seeds, 0, None)
}

/// The cells that complete a range are determined by the range: two tilings of
/// one range by cells that are as coarse as the range allows are the same.
pub proof fn lemma_region_unique(a: Seq<MortonKey>, b: Seq<MortonKey>, lo: nat, hi: nat)
    requires
        tiles(a, lo, hi),
        coarsest_in(a, lo, hi),
        tiles(b, lo, hi),
        coarsest_in(b, lo, hi),
    ensures
        a == b,
{
    lemma_coarsest_refines(a, b, lo, hi);
    lemma_coarsest_refines(b, a, lo, hi);
    lemma_refinement_length(a, b, lo, hi);
    lemma_refinement_length(b, a, lo, hi);
}

/// A tiling of a range refines the tiling of that range by its coarsest cells.
proof fn lemma_coarsest_refines(a: Seq<MortonKey>, b: Seq<MortonKey>, lo: nat, hi: nat)
    requires
        tiles(a, lo, hi),
        tiles(b, lo, hi),
        coarsest_in(b, lo, hi),
    ensures
        refines(a, b),
{
    assert forall|j: int| 0 <= j < a.len() implies covered_by(#[trigger] a[j], b) by {
        let x: MortonKey = a[j];
        crate::linear::lemma_tiles_bounds(a, lo, hi, j);
        lemma_width_positive(x);
        let i: int = crate::linear::lemma_tiles_locate(b, lo, hi, x.code());
        let y: MortonKey = b[i];
        assert(x.overlaps(y));
        lemma_overlap_nested(x, y);
        if !y.covers(x) {
            lemma_covers_levels(x, y);
            lemma_parent(y);
            let p: MortonKey = y.parent_spec();
            lemma_width_positive(y);
            assert(x.overlaps(p));
            lemma_overlap_nested(x, p);
            assert(x.covers(p));
            assert(inside(p, lo, hi));
            assert(false);
        }
    }
}

/// A block is determined by what is stated of its completion: two tilings of
/// the range of a block that both hold the keys `l` and besides them fillers
/// only are the same.
pub proof fn lemma_completion_unique(
    a: Seq<MortonKey>,
    b: Seq<MortonKey>,
    l: Seq<MortonKey>,
    lower: nat,
    next: Option<MortonKey>,
)
    requires
        all_wf(l),
        next.is_some() ==> next.unwrap().wf(),
        tiles(a, lower, block_end(next)),
        tiles(b, lower, block_end(next)),
        holds_first(a, l, l.len() as int),
        holds_first(b, l, l.len() as int),
        all_marked(a, l, lower, next),
        all_marked(b, l, lower, next),
    ensures
        a == b,
{
    lemma_marked_refines(a, b, l, lower, next);
    lemma_marked_refines(b, a, l, lower, next);
    lemma_refinement_length(a, b, lower, block_end(next));
    lemma_refinement_length(b, a, lower, block_end(next));
}

/// A tiling of a block that holds the keys `l` refines every tiling of the
/// block that holds them and besides them fillers only.
proof fn lemma_marked_refines(
    a: Seq<MortonKey>,
    b: Seq<MortonKey>,
    l: Seq<MortonKey>,
    lower: nat,
    next: Option<MortonKey>,
)
    requires
        all_wf(l),
        next.is_some() ==> next.unwrap().wf(),
        tiles(a, lower, block_end(next)),
        tiles(b, lower, block_end(next)),
        holds_first(a, l, l.len() as int),
        holds_first(b, l, l.len() as int),
        all_marked(b, l, lower, next),
    ensures
        refines(a, b),
{
    let hi: nat = block_end(next);
    lemma_tiles_linear(a, lower, hi);
    lemma_tiles_linear(b, lower, hi);
    assert forall|j: int| 0 <= j < a.len() implies covered_by(#[trigger] a[j], b) by {
        let x: MortonKey = a[j];
        crate::linear::lemma_tiles_bounds(a, lower, hi, j);
        lemma_width_positive(x);
        let i: int = crate::linear::lemma_tiles_locate(b, lower, hi, x.code());
        let y: MortonKey = b[i];
        assert(x.overlaps(y));
        lemma_overlap_nested(x, y);
        if !y.covers(x) {
            lemma_covers_levels(x, y);
            lemma_width_positive(y);
            if l.contains(y) {
                let t: int = choose|t: int| 0 <= t < l.len() && l[t] == y;
                assert(a.contains(l[t]));
                let ja: int = choose|ja: int| 0 <= ja < a.len() && a[ja] == y;
                if j < ja {
                    crate::linear::lemma_linear_pair(a, j, ja);
                } else if ja < j {
                    crate::linear::lemma_linear_pair(a, ja, j);
                }
                assert(false);
            } else {
                assert(is_filler(y, l, lower, next));
                lemma_parent(y);
                let p: MortonKey = y.parent_spec();
                assert(x.overlaps(p));
                lemma_overlap_nested(x, p);
                assert(x.covers(p));
                lemma_width_positive(p);
                if next.is_some() && p.overlaps(next.unwrap()) {
                    assert(false);
                } else if p.code() < lower {
                    assert(false);
                } else {
                    let t: int = choose|t: int| 0 <= t < l.len() && p.overlaps(#[trigger] l[t]);
                    let s: MortonKey = l[t];
                    lemma_width_positive(s);
                    assert(x.overlaps(s));
                    assert(a.contains(l[t]));
                    let ja: int = choose|ja: int| 0 <= ja < a.len() && a[ja] == s;
                    if j < ja {
                        crate::linear::lemma_linear_pair(a, j, ja);
                    } else if ja < j {
                        crate::linear::lemma_linear_pair(a, ja, j);
                    }
                    assert(x == s);
                    assert(b.contains(l[t]));
                    let ib: int = choose|ib: int| 0 <= ib < b.len() && b[ib] == s;
                    if i < ib {
                        crate::linear::lemma_linear_pair(b, i, ib);
                    } else if ib < i {
                        crate::linear::lemma_linear_pair(b, ib, i);
                    }
                    assert(false);
                }
            }
        }
    }
}

} // verus!
