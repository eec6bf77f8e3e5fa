//! Morton keys: cells of an octree as 64-bit integers.
//!
//! A key names one cell of the octree over the unit cube. The cube is cut into
//! `2^16` steps along each axis. A cell of level `l` is a cube of `2^(16 - l)`
//! steps a side, and its anchor is its lowest corner. The key holds the level in
//! its low fifteen bits and, above them, the Z-order number of the anchor: the
//! `code`. Along the Z-order curve a cell of level `l` takes up the `8^(16 - l)`
//! codes from its own on, so containment of cells is containment of intervals,
//! and the order of the integers walks the tree in pre-order.

use vstd::prelude::*;
use crate::powers::{
    eight_pow, lemma_add_multiple, lemma_eight_pow_divides, lemma_eight_pow_monotonic,
    lemma_eight_pow_positive, lemma_eight_pow_strictly_monotonic, lemma_multiple_gap,
    lemma_multiple_of_multiple, lemma_pow_values, lemma_round_down, lemma_round_down_unique,
    lemma_two_pow_positive, pow2, pow8, two_pow,
};
use crate::interleave::{
    contract, gather, interleave, interleave_bits, lemma_gather_aligned, lemma_gather_bound,
    lemma_gather_interleave, lemma_interleave_aligned, lemma_interleave_bound,
    lemma_interleave_gather, lemma_interleave_truncate, lemma_mod_range,
};

verus! {

/// The deepest level of a tree.
pub const DEEPEST_LEVEL: u64 = 16;

/// The level of a key is its value modulo this number.
pub const LEVEL_SIZE: u64 = 32768;

/// The number of codes: `8^16`.
pub const CODE_LIMIT: u64 = 0x1_0000_0000_0000;

/// The number of steps along one axis: `2^16`.
pub const GRID_SIZE: u64 = 65536;

/// A cell of the octree.
#[derive(Clone, Copy, Debug, PartialEq, Eq, Structural, PartialOrd, Ord, Hash)]
pub struct MortonKey {
    /// The code times `LEVEL_SIZE`, plus the level.
    pub morton: u64,
}

/// The key with the given code and level.
pub open spec fn key_of(code: nat, level: nat) -> MortonKey {
    MortonKey { morton: (code * 32768 + level) as u64 }
}

/// The number of codes that a cell of the given level takes up.
pub open spec fn cell_width(level: nat) -> nat {
    eight_pow((16 - level) as nat)
}

/// The number of steps along one side of a cell of the given level.
pub open spec fn cell_side(level: nat) -> nat {
    two_pow((16 - level) as nat)
}

impl MortonKey {
    /// The level of the cell.
    pub open spec fn level_spec(self) -> nat {
        (self.morton % 32768) as nat
    }

    /// The Z-order number of the anchor, and the first code of the cell.
    pub open spec fn code(self) -> nat {
        (self.morton / 32768) as nat
    }

    /// The number of codes of the cell.
    pub open spec fn width(self) -> nat {
        cell_width(self.level_spec())
    }

    /// The code after the last code of the cell.
    pub open spec fn end(self) -> nat {
        self.code() + self.width()
    }

    /// The key names a cell: its level is at most sixteen and its anchor lies on
    /// the grid of its level.
    pub open spec fn wf(self) -> bool {
        &&& self.level_spec() <= 16
        &&& self.code() < eight_pow(16)
        &&& self.code() % self.width() == 0
    }

    /// The cell of `self` contains the cell of `other`: `self` is `other` or one of
    /// its ancestors.
    pub open spec fn covers(self, other: MortonKey) -> bool {
        self.code() <= other.code() && other.end() <= self.end()
    }

    /// The cells of `self` and `other` have a point in common.
    pub open spec fn overlaps(self, other: MortonKey) -> bool {
        self.code() < other.end() && other.code() < self.end()
    }

    /// The cell of the given level that contains the anchor of `self`.
    pub open spec fn ancestor_at(self, level: nat) -> MortonKey {
        key_of((self.code() - self.code() % cell_width(level)) as nat, level)
    }

    /// `self` is an ancestor of `other`: it is coarser, and the ancestor of `other` at
    /// the level of `self` is `self`.
    pub open spec fn is_ancestor_spec(self, other: MortonKey) -> bool {
        self.level_spec() < other.level_spec() && other.ancestor_at(self.level_spec()) == self
    }

    /// The cell one level up that contains `self`.
    pub open spec fn parent_spec(self) -> MortonKey {
        self.ancestor_at((self.level_spec() - 1) as nat)
    }

    /// The `i`-th of the eight cells one level down that tile `self`, in Z-order.
    pub open spec fn child_spec(self, i: nat) -> MortonKey {
        key_of(self.code() + i * cell_width(self.level_spec() + 1), self.level_spec() + 1)
    }

    /// The first coordinate of the anchor, in steps.
    pub open spec fn x(self) -> nat {
        gather(self.code(), 16)
    }

    /// The second coordinate of the anchor, in steps.
    pub open spec fn y(self) -> nat {
        gather(self.code() / 2, 16)
    }

    /// The third coordinate of the anchor, in steps.
    pub open spec fn z(self) -> nat {
        gather(self.code() / 4, 16)
    }

    /// The deepest cell at the anchor of `self`.
    pub open spec fn first_descendant_spec(self) -> MortonKey {
        key_of(self.code(), 16)
    }

    /// The deepest cell at the far corner of `self`.
    pub open spec fn last_descendant_spec(self) -> MortonKey {
        key_of((self.end() - 1) as nat, 16)
    }
}

/// The key of the cell of the given level that contains the grid point `(x, y, z)`.
pub open spec fn key_at(x: nat, y: nat, z: nat, level: nat) -> MortonKey {
    key_of(interleave(x, y, z, 16), 16).ancestor_at(level)
}

/// `key_of` stores the code and the level where `code` and `level_spec` find them.
pub proof fn lemma_key_of(code: nat, level: nat)
    requires
        code < eight_pow(16),
        level < 32768,
    ensures
        key_of(code, level).code() == code,
        key_of(code, level).level_spec() == level,
{
    lemma_pow_values();
}

/// A key is determined by its code and its level.
pub proof fn lemma_key_fields(k: MortonKey)
    ensures
        key_of(k.code(), k.level_spec()) == k,
{
}

/// Two keys with the same code and the same level are equal.
pub proof fn lemma_key_equal(a: MortonKey, b: MortonKey)
    requires
        a.code() == b.code(),
        a.level_spec() == b.level_spec(),
    ensures
        a == b,
{
    lemma_key_fields(a);
    lemma_key_fields(b);
}

/// The order of the integers compares codes first and levels second.
pub proof fn lemma_morton_order(a: MortonKey, b: MortonKey)
    ensures
        a.morton < b.morton <==> a.code() < b.code() || (a.code() == b.code() && a.level_spec()
            < b.level_spec()),
{
}

/// A cell has at least one code.
pub proof fn lemma_width_positive(k: MortonKey)
    ensures
        k.width() >= 1,
        k.code() < k.end(),
{
    lemma_eight_pow_positive((16 - k.level_spec()) as nat);
}

/// A cell ends within the range of codes.
pub proof fn lemma_end_bound(k: MortonKey)
    requires
        k.wf(),
    ensures
        k.end() <= eight_pow(16),
{
    let w: nat = k.width();
    lemma_eight_pow_positive((16 - k.level_spec()) as nat);
    lemma_eight_pow_divides((16 - k.level_spec()) as nat, 16);
    lemma_multiple_gap(k.code(), eight_pow(16), w);
}

/// Finer cells are narrower.
pub proof fn lemma_width_order(coarse: nat, fine: nat)
    requires
        coarse <= fine <= 16,
    ensures
        cell_width(fine) <= cell_width(coarse),
        cell_width(coarse) % cell_width(fine) == 0,
        coarse < fine ==> cell_width(fine) < cell_width(coarse),
        cell_width(fine) >= 1,
{
    lemma_eight_pow_monotonic((16 - fine) as nat, (16 - coarse) as nat);
    lemma_eight_pow_divides((16 - fine) as nat, (16 - coarse) as nat);
    lemma_eight_pow_positive((16 - fine) as nat);
    if coarse < fine {
        lemma_eight_pow_strictly_monotonic((16 - fine) as nat, (16 - coarse) as nat);
    }
}

/// Two cells are nested or disjoint: a cell that is no finer than another
/// contains it or has no code in common with it.
pub proof fn lemma_nested_or_disjoint(a: MortonKey, b: MortonKey)
    requires
        a.wf(),
        b.wf(),
        a.level_spec() <= b.level_spec(),
    ensures
        a.covers(b) || b.end() <= a.code() || a.end() <= b.code(),
{
    let wa: nat = a.width();
    let wb: nat = b.width();
    lemma_width_order(a.level_spec(), b.level_spec());
    lemma_multiple_of_multiple(a.code(), wa, wb);
    if b.code() < a.code() {
        lemma_multiple_gap(b.code(), a.code(), wb);
    } else if b.code() < a.end() {
        lemma_add_multiple(a.code(), wa, 1);
        assert(1 * wa == wa);
        lemma_multiple_of_multiple(a.end(), wa, wb);
        lemma_multiple_gap(b.code(), a.end(), wb);
    }
}

/// A cell that contains another is no finer than it.
pub proof fn lemma_covers_levels(a: MortonKey, b: MortonKey)
    requires
        a.wf(),
        b.wf(),
        a.covers(b),
    ensures
        a.level_spec() <= b.level_spec(),
        a.level_spec() == b.level_spec() ==> a == b,
{
    if b.level_spec() < a.level_spec() {
        lemma_width_order(b.level_spec(), a.level_spec());
    }
    if a.level_spec() == b.level_spec() {
        lemma_key_equal(a, b);
    }
}

/// Two cells that overlap are nested, the coarser one outside.
pub proof fn lemma_overlap_nested(a: MortonKey, b: MortonKey)
    requires
        a.wf(),
        b.wf(),
        a.overlaps(b),
    ensures
        a.level_spec() <= b.level_spec() ==> a.covers(b),
        b.level_spec() <= a.level_spec() ==> b.covers(a),
{
    if a.level_spec() <= b.level_spec() {
        lemma_nested_or_disjoint(a, b);
    }
    if b.level_spec() <= a.level_spec() {
        lemma_nested_or_disjoint(b, a);
    }
}

/// The ancestor at a level is the cell of that level that contains the key.
pub proof fn lemma_ancestor_at(k: MortonKey, level: nat)
    requires
        k.wf(),
        level <= k.level_spec(),
    ensures
        k.ancestor_at(level).wf(),
        k.ancestor_at(level).level_spec() == level,
        k.ancestor_at(level).code() == k.code() - k.code() % cell_width(level),
        k.ancestor_at(level).covers(k),
        level == k.level_spec() ==> k.ancestor_at(level) == k,
{
    let w: nat = cell_width(level);
    lemma_width_order(level, k.level_spec());
    lemma_round_down(k.code(), w);
    let c: nat = (k.code() - k.code() % w) as nat;
    lemma_key_of(c, level);
    let a: MortonKey = k.ancestor_at(level);
    lemma_end_bound(k);
    // the end of `k` is a multiple of its width, and `c + w` is one too
    lemma_multiple_of_multiple(c, w, k.width());
    if c + w < k.end() {
        lemma_add_multiple(c, w, 1);
        assert(1 * w == w);
        lemma_multiple_of_multiple(c + w, w, k.width());
        lemma_multiple_gap(k.code(), c + w, k.width());
    }
    if level == k.level_spec() {
        lemma_key_equal(a, k);
    }
}

/// A cell that contains a key is the ancestor of the key at the cell's level.
pub proof fn lemma_covering_is_ancestor_at(a: MortonKey, k: MortonKey)
    requires
        a.wf(),
        k.wf(),
        a.covers(k),
    ensures
        a.level_spec() <= k.level_spec(),
        k.ancestor_at(a.level_spec()) == a,
{
    lemma_covers_levels(a, k);
    lemma_width_positive(k);
    lemma_width_positive(a);
    lemma_round_down_unique(k.code(), a.width(), a.code());
    lemma_ancestor_at(k, a.level_spec());
    lemma_key_equal(a, k.ancestor_at(a.level_spec()));
}

/// `a` is an ancestor of `d` exactly if it is coarser than `d` and contains it.
pub proof fn lemma_is_ancestor(a: MortonKey, d: MortonKey)
    requires
        a.wf(),
        d.wf(),
    ensures
        a.is_ancestor_spec(d) <==> (a.level_spec() < d.level_spec() && a.covers(d)),
        a.is_ancestor_spec(d) ==> a.morton < d.morton,
{
    if a.level_spec() < d.level_spec() {
        lemma_ancestor_at(d, a.level_spec());
        if a.covers(d) {
            lemma_covering_is_ancestor_at(a, d);
        }
    }
}

/// The parent is the cell one level up that contains the key.
pub proof fn lemma_parent(k: MortonKey)
    requires
        k.wf(),
        k.level_spec() > 0,
    ensures
        k.parent_spec().wf(),
        k.parent_spec().level_spec() == k.level_spec() - 1,
        k.parent_spec().covers(k),
        k.parent_spec().is_ancestor_spec(k),
{
    lemma_ancestor_at(k, (k.level_spec() - 1) as nat);
    lemma_is_ancestor(k.parent_spec(), k);
}

/// The children are cells one level down that tile the key, in order.
pub proof fn lemma_child(k: MortonKey, i: nat)
    requires
        k.wf(),
        k.level_spec() < 16,
        i < 8,
    ensures
        k.child_spec(i).wf(),
        k.child_spec(i).level_spec() == k.level_spec() + 1,
        k.child_spec(i).code() == k.code() + i * cell_width(k.level_spec() + 1),
        k.child_spec(i).end() == k.code() + (i + 1) * cell_width(k.level_spec() + 1),
        k.width() == 8 * cell_width(k.level_spec() + 1),
        k.covers(k.child_spec(i)),
{
    let w: nat = cell_width(k.level_spec() + 1);
    assert(k.width() == 8 * w);
    lemma_end_bound(k);
    lemma_width_order(k.level_spec(), k.level_spec() + 1);
    assert(i * w <= 7 * w && (i + 1) * w == i * w + w && 0 <= i * w) by (nonlinear_arith)
        requires
            i < 8,
            w >= 1,
    ;
    let c: nat = k.code() + i * w;
    lemma_key_of(c, k.level_spec() + 1);
    lemma_multiple_of_multiple(k.code(), k.width(), w);
    lemma_add_multiple(k.code(), w, i);
}

/// The parent of a child is the key it was made from.
pub proof fn lemma_parent_of_child(k: MortonKey, i: nat)
    requires
        k.wf(),
        k.level_spec() < 16,
        i < 8,
    ensures
        k.child_spec(i).parent_spec() == k,
{
    lemma_child(k, i);
    lemma_covering_is_ancestor_at(k, k.child_spec(i));
}

/// The index of a key among the children of its parent.
pub open spec fn child_index(k: MortonKey) -> nat {
    ((k.code() - k.parent_spec().code()) / (k.width() as int)) as nat
}

/// A key is one of the children of its parent.
pub proof fn lemma_child_of_parent(k: MortonKey)
    requires
        k.wf(),
        k.level_spec() > 0,
    ensures
        child_index(k) < 8,
        k.parent_spec().child_spec(child_index(k)) == k,
{
    let p: MortonKey = k.parent_spec();
    lemma_parent(k);
    let w: nat = k.width();
    lemma_width_positive(k);
    assert(p.width() == 8 * w);
    lemma_width_order(p.level_spec(), k.level_spec());
    lemma_multiple_of_multiple(p.code(), p.width(), w);
    let d: nat = (k.code() - p.code()) as nat;
    let i: nat = d / w;
    assert(d % w == 0 && d == w * i && i < 8) by (nonlinear_arith)
        requires
            w > 0,
            k.code() % w == 0,
            p.code() % w == 0,
            d == k.code() - p.code(),
            k.code() >= p.code(),
            i == d / w,
            d < 8 * w,
    ;
    assert(i * w == w * i) by (nonlinear_arith);
    lemma_child(p, i);
    lemma_key_equal(p.child_spec(i), k);
}

/// The index of the `i`-th child among the children of its parent is `i`.
pub proof fn lemma_child_index(k: MortonKey, i: nat)
    requires
        k.wf(),
        k.level_spec() < 16,
        i < 8,
    ensures
        child_index(k.child_spec(i)) == i,
{
    lemma_child(k, i);
    lemma_parent_of_child(k, i);
    let c: MortonKey = k.child_spec(i);
    let w: nat = c.width();
    lemma_width_positive(c);
    assert((i * w) / w == i) by (nonlinear_arith)
        requires
            w > 0,
            i >= 0,
    ;
}

/// The anchor of a cell lies on the grid of its level, inside the cube.
pub proof fn lemma_anchor_aligned(k: MortonKey)
    requires
        k.wf(),
    ensures
        k.x() < 65536,
        k.y() < 65536,
        k.z() < 65536,
        k.x() % cell_side(k.level_spec()) == 0,
        k.y() % cell_side(k.level_spec()) == 0,
        k.z() % cell_side(k.level_spec()) == 0,
        interleave(k.x(), k.y(), k.z(), 16) == k.code(),
{
    lemma_pow_values();
    lemma_gather_bound(k.code(), 16);
    lemma_gather_bound(k.code() / 2, 16);
    lemma_gather_bound(k.code() / 4, 16);
    lemma_gather_aligned(k.code(), 16, (16 - k.level_spec()) as nat);
    lemma_interleave_gather(k.code(), 16);
}

/// The key made from an anchor on the grid of a level has that anchor.
pub proof fn lemma_key_of_anchor(x: nat, y: nat, z: nat, level: nat)
    requires
        level <= 16,
        x < 65536,
        y < 65536,
        z < 65536,
        x % cell_side(level) == 0,
        y % cell_side(level) == 0,
        z % cell_side(level) == 0,
    ensures
        key_of(interleave(x, y, z, 16), level).wf(),
        key_of(interleave(x, y, z, 16), level).level_spec() == level,
        key_of(interleave(x, y, z, 16), level).code() == interleave(x, y, z, 16),
        key_of(interleave(x, y, z, 16), level).x() == x,
        key_of(interleave(x, y, z, 16), level).y() == y,
        key_of(interleave(x, y, z, 16), level).z() == z,
{
    let c: nat = interleave(x, y, z, 16);
    lemma_pow_values();
    lemma_interleave_bound(x, y, z, 16);
    lemma_key_of(c, level);
    lemma_interleave_aligned(x, y, z, 16, (16 - level) as nat);
    lemma_gather_interleave(x, y, z, 16);
    lemma_mod_range(x, 65536);
    lemma_mod_range(y, 65536);
    lemma_mod_range(z, 65536);
}

/// Two cells of one level with the same anchor are the same cell.
pub proof fn lemma_anchor_determines_key(a: MortonKey, b: MortonKey)
    requires
        a.wf(),
        b.wf(),
        a.level_spec() == b.level_spec(),
        a.x() == b.x(),
        a.y() == b.y(),
        a.z() == b.z(),
    ensures
        a == b,
{
    lemma_anchor_aligned(a);
    lemma_anchor_aligned(b);
    lemma_key_equal(a, b);
}

/// The key of a grid point at a level: its anchor is the point rounded down to
/// the grid of the level.
pub proof fn lemma_key_at(x: nat, y: nat, z: nat, level: nat)
    requires
        level <= 16,
        x < 65536,
        y < 65536,
        z < 65536,
    ensures
        key_at(x, y, z, level).wf(),
        key_at(x, y, z, level).level_spec() == level,
        key_at(x, y, z, level).x() == x - x % cell_side(level),
        key_at(x, y, z, level).y() == y - y % cell_side(level),
        key_at(x, y, z, level).z() == z - z % cell_side(level),
        key_at(x, y, z, level) == key_of(
            interleave(
                (x - x % cell_side(level)) as nat,
                (y - y % cell_side(level)) as nat,
                (z - z % cell_side(level)) as nat,
                16,
            ),
            level,
        ),
{
    let s: nat = cell_side(level);
    lemma_two_pow_positive((16 - level) as nat);
    lemma_round_down(x, s);
    lemma_round_down(y, s);
    lemma_round_down(z, s);
    let xt: nat = (x - x % s) as nat;
    let yt: nat = (y - y % s) as nat;
    let zt: nat = (z - z % s) as nat;
    let full: nat = interleave(x, y, z, 16);
    lemma_pow_values();
    lemma_interleave_bound(x, y, z, 16);
    lemma_key_of(full, 16);
    lemma_interleave_truncate(x, y, z, 16, (16 - level) as nat);
    lemma_key_of_anchor(xt, yt, zt, level);
}

/// The ancestor of an ancestor is an ancestor.
pub proof fn lemma_ancestor_of_ancestor(k: MortonKey, level: nat, above: nat)
    requires
        k.wf(),
        above <= level <= k.level_spec(),
    ensures
        k.ancestor_at(level).ancestor_at(above) == k.ancestor_at(above),
{
    let a: MortonKey = k.ancestor_at(level);
    lemma_ancestor_at(k, level);
    let b: MortonKey = a.ancestor_at(above);
    lemma_ancestor_at(a, above);
    lemma_covering_is_ancestor_at(b, k);
}

/// The anchor of the parent is the anchor of the key, rounded down to the grid
/// of the level of the parent.
pub proof fn lemma_parent_anchor(k: MortonKey)
    requires
        k.wf(),
        k.level_spec() > 0,
    ensures
        k.parent_spec() == key_at(k.x(), k.y(), k.z(), (k.level_spec() - 1) as nat),
        k.parent_spec().x() == k.x() - k.x() % cell_side((k.level_spec() - 1) as nat),
        k.parent_spec().y() == k.y() - k.y() % cell_side((k.level_spec() - 1) as nat),
        k.parent_spec().z() == k.z() - k.z() % cell_side((k.level_spec() - 1) as nat),
        cell_side((k.level_spec() - 1) as nat) == 2 * cell_side(k.level_spec()),
{
    let level: nat = k.level_spec();
    lemma_anchor_aligned(k);
    lemma_decode_encode(k);
    let finest: MortonKey = key_of(interleave(k.x(), k.y(), k.z(), 16), 16);
    assert(cell_side(16) == 1) by {
        assert(two_pow(0) == 1);
    }
    lemma_mod_range(k.x(), 1);
    lemma_mod_range(k.y(), 1);
    lemma_mod_range(k.z(), 1);
    lemma_key_of_anchor(k.x(), k.y(), k.z(), 16);
    lemma_ancestor_of_ancestor(finest, level, (level - 1) as nat);
    lemma_key_at(k.x(), k.y(), k.z(), (level - 1) as nat);
}

/// Decoding a key and encoding its anchor at its level gives the key back.
pub proof fn lemma_decode_encode(k: MortonKey)
    requires
        k.wf(),
    ensures
        key_at(k.x(), k.y(), k.z(), k.level_spec()) == k,
{
    lemma_anchor_aligned(k);
    lemma_key_at(k.x(), k.y(), k.z(), k.level_spec());
    let side: nat = cell_side(k.level_spec());
    lemma_two_pow_positive((16 - k.level_spec()) as nat);
    lemma_anchor_determines_key(key_at(k.x(), k.y(), k.z(), k.level_spec()), k);
}

/// Encoding a grid point at the deepest level and decoding the key gives the
/// point back.
pub proof fn lemma_encode_decode(x: nat, y: nat, z: nat)
    requires
        x < 65536,
        y < 65536,
        z < 65536,
    ensures
        key_at(x, y, z, 16).wf(),
        key_at(x, y, z, 16).level_spec() == 16,
        key_at(x, y, z, 16).x() == x,
        key_at(x, y, z, 16).y() == y,
        key_at(x, y, z, 16).z() == z,
{
    lemma_key_at(x, y, z, 16);
    assert(cell_side(16) == 1) by {
        assert(two_pow(0) == 1);
    }
    lemma_mod_range(x, 1);
    lemma_mod_range(y, 1);
    lemma_mod_range(z, 1);
}

impl MortonKey {
    /// The key of the whole cube.
    pub fn root() -> (r: MortonKey)
        ensures
            r.wf(),
            r.morton == 0,
            r.level_spec() == 0,
            r.code() == 0,
            r.end() == eight_pow(16),
    {
        proof {
            lemma_pow_values();
            lemma_mod_range(0, eight_pow(16));
        }
        MortonKey { morton: 0 }
    }

    /// The key with the given code and level.
    pub fn from_parts(code: u64, level: u64) -> (r: MortonKey)
        requires
            code < CODE_LIMIT,
            level <= DEEPEST_LEVEL,
        ensures
            r == key_of(code as nat, level as nat),
            r.code() == code,
            r.level_spec() == level,
    {
        proof {
            lemma_pow_values();
            lemma_key_of(code as nat, level as nat);
        }
        MortonKey { morton: code * LEVEL_SIZE + level }
    }

    /// The key with the given integer value, if that value names a cell.
    pub fn from_raw(raw: u64) -> (r: Option<MortonKey>)
        ensures
            (MortonKey { morton: raw }).wf() ==> r == Some(MortonKey { morton: raw }),
            !(MortonKey { morton: raw }).wf() ==> r.is_none(),
    {
        let level: u64 = raw % LEVEL_SIZE;
        let code: u64 = raw / LEVEL_SIZE;
        proof {
            lemma_pow_values();
        }
        if level > DEEPEST_LEVEL || code >= CODE_LIMIT {
            return None;
        }
        let w: u64 = pow8(DEEPEST_LEVEL - level);
        if code % w != 0 {
            return None;
        }
        Some(MortonKey { morton: raw })
    }

    /// Whether the key names a cell.
    pub fn is_valid(&self) -> (r: bool)
        ensures
            r == self.wf(),
    {
        MortonKey::from_raw(self.morton).is_some()
    }

    /// The integer value of the key.
    pub fn raw(&self) -> (r: u64)
        ensures
            r == self.morton,
    {
        self.morton
    }

    /// The level of the cell.
    pub fn level(&self) -> (r: u64)
        ensures
            r == self.level_spec(),
    {
        self.morton % LEVEL_SIZE
    }

    /// The code of the cell.
    pub fn position(&self) -> (r: u64)
        ensures
            r == self.code(),
    {
        self.morton / LEVEL_SIZE
    }

    /// The code after the last code of the cell.
    pub fn position_end(&self) -> (r: u64)
        requires
            self.wf(),
        ensures
            r == self.end(),
            r <= CODE_LIMIT,
    {
        proof {
            lemma_end_bound(*self);
            lemma_pow_values();
        }
        self.position() + pow8(DEEPEST_LEVEL - self.level())
    }

    /// The key of the cell of the given level that contains the grid point `anchor`.
    pub fn from_anchor(anchor: [u64; 3], level: u64) -> (r: MortonKey)
        requires
            level <= DEEPEST_LEVEL,
            anchor[0] < GRID_SIZE,
            anchor[1] < GRID_SIZE,
            anchor[2] < GRID_SIZE,
        ensures
            r == key_at(anchor[0] as nat, anchor[1] as nat, anchor[2] as nat, level as nat),
            r.wf(),
            r.level_spec() == level,
            r.x() == anchor[0] - (anchor[0] as nat) % cell_side(level as nat),
            r.y() == anchor[1] - (anchor[1] as nat) % cell_side(level as nat),
            r.z() == anchor[2] - (anchor[2] as nat) % cell_side(level as nat),
    {
        let side: u64 = pow2(DEEPEST_LEVEL - level);
        proof {
            lemma_mod_range(anchor[0] as nat, side as nat);
            lemma_mod_range(anchor[1] as nat, side as nat);
            lemma_mod_range(anchor[2] as nat, side as nat);
        }
        let x: u64 = anchor[0] - anchor[0] % side;
        let y: u64 = anchor[1] - anchor[1] % side;
        let z: u64 = anchor[2] - anchor[2] % side;
        let code: u64 = interleave_bits(x, y, z);
        proof {
            lemma_key_at(anchor[0] as nat, anchor[1] as nat, anchor[2] as nat, level as nat);
        }
        MortonKey::from_parts(code, level)
    }

    /// The anchor of the cell, in steps along the three axes.
    pub fn anchor(&self) -> (r: [u64; 3])
        requires
            self.wf(),
        ensures
            r[0] == self.x(),
            r[1] == self.y(),
            r[2] == self.z(),
    {
        let code: u64 = self.position();
        proof {
            lemma_pow_values();
        }
        let x: u64 = contract(code);
        let y: u64 = contract(code / 2);
        let z: u64 = contract(code / 4);
        [x, y, z]
    }

    /// The ancestor of the key at a level no deeper than its own.
    pub fn ancestor(&self, level: u64) -> (r: MortonKey)
        requires
            self.wf(),
            level <= self.level_spec(),
        ensures
            r == self.ancestor_at(level as nat),
            r.wf(),
            r.level_spec() == level,
            r.covers(*self),
    {
        let code: u64 = self.position();
        let w: u64 = pow8(DEEPEST_LEVEL - level);
        proof {
            lemma_ancestor_at(*self, level as nat);
            lemma_pow_values();
        }
        MortonKey::from_parts(code - code % w, level)
    }

    /// The cell one level up that contains the key.
    pub fn parent(&self) -> (r: MortonKey)
        requires
            self.wf(),
            self.level_spec() > 0,
        ensures
            r == self.parent_spec(),
            r.wf(),
            r.level_spec() == self.level_spec() - 1,
            r.covers(*self),
    {
        let level: u64 = self.level();
        self.ancestor(level - 1)
    }

    /// The `i`-th child of the key.
    pub fn child(&self, i: u64) -> (r: MortonKey)
        requires
            self.wf(),
            self.level_spec() < 16,
            i < 8,
        ensures
            r == self.child_spec(i as nat),
            r.wf(),
    {
        let level: u64 = self.level();
        let w: u64 = pow8(DEEPEST_LEVEL - (level + 1));
        proof {
            lemma_child(*self, i as nat);
            lemma_end_bound(self.child_spec(i as nat));
            lemma_pow_values();
            assert(i * w <= 7 * w) by (nonlinear_arith)
                requires
                    i < 8,
                    w >= 0,
            ;
        }
        MortonKey::from_parts(self.position() + i * w, level + 1)
    }

    /// The eight cells one level down that tile the key, in Z-order.
    pub fn children(&self) -> (r: Vec<MortonKey>)
        requires
            self.wf(),
            self.level_spec() < 16,
        ensures
            r@.len() == 8,
            forall|i: int| 0 <= i < 8 ==> r@[i] == self.child_spec(i as nat),
    {
        let mut out: Vec<MortonKey> = Vec::new();
        let mut i: u64 = 0;
        while i < 8
            invariant
                i <= 8,
                self.wf(),
                self.level_spec() < 16,
                out@.len() == i,
                forall|j: int| 0 <= j < i ==> out@[j] == self.child_spec(j as nat),
            decreases 8 - i,
        {
            out.push(self.child(i));
            i = i + 1;
        }
        out
    }

    /// The eight children of the parent of the key, the key among them, in Z-order.
    pub fn siblings(&self) -> (r: Vec<MortonKey>)
        requires
            self.wf(),
            self.level_spec() > 0,
        ensures
            r@.len() == 8,
            forall|i: int| 0 <= i < 8 ==> r@[i] == self.parent_spec().child_spec(i as nat),
            r@[child_index(*self) as int] == *self,
    {
        proof {
            lemma_child_of_parent(*self);
        }
        self.parent().children()
    }

    /// The ancestors of the key from the root down, the key itself last.
    pub fn ancestors(&self) -> (r: Vec<MortonKey>)
        requires
            self.wf(),
        ensures
            r@.len() == self.level_spec() + 1,
            forall|i: int| 0 <= i <= self.level_spec() ==> r@[i] == self.ancestor_at(i as nat),
            r@[self.level_spec() as int] == *self,
    {
        let level: u64 = self.level();
        let mut out: Vec<MortonKey> = Vec::new();
        let mut i: u64 = 0;
        while i <= level
            invariant
                i <= level + 1,
                level == self.level_spec(),
                level <= 16,
                self.wf(),
                out@.len() == i,
                forall|j: int| 0 <= j < i ==> out@[j] == self.ancestor_at(j as nat),
            decreases level + 1 - i,
        {
            out.push(self.ancestor(i));
            i = i + 1;
        }
        proof {
            lemma_ancestor_at(*self, level as nat);
        }
        out
    }

    /// Whether the key is an ancestor of `other`.
    pub fn is_ancestor(&self, other: &MortonKey) -> (r: bool)
        requires
            self.wf(),
            other.wf(),
        ensures
            r == self.is_ancestor_spec(*other),
    {
        let level: u64 = self.level();
        if level >= other.level() {
            return false;
        }
        let a: MortonKey = other.ancestor(level);
        a == *self
    }

    /// Whether the cell of the key contains the cell of `other`.
    pub fn contains(&self, other: &MortonKey) -> (r: bool)
        requires
            self.wf(),
            other.wf(),
        ensures
            r == self.covers(*other),
    {
        self.position() <= other.position() && other.position_end() <= self.position_end()
    }

    /// The deepest cell that contains both keys.
    pub fn finest_ancestor(&self, other: &MortonKey) -> (r: MortonKey)
        requires
            self.wf(),
            other.wf(),
        ensures
            r.wf(),
            r.covers(*self),
            r.covers(*other),
            forall|k: MortonKey|
                k.wf() && k.covers(*self) && #[trigger] k.covers(*other) ==> k.covers(r),
    {
        let la: u64 = self.level();
        let lb: u64 = other.level();
        let mut level: u64 = if la < lb {
            la
        } else {
            lb
        };
        let ghost top: nat = level as nat;
        proof {
            lemma_pow_values();
            lemma_mod_range(self.code(), eight_pow(16));
            lemma_mod_range(other.code(), eight_pow(16));
        }
        while level > 0 && self.ancestor(level) != other.ancestor(level)
            invariant
                self.wf(),
                other.wf(),
                level <= top,
                top <= self.level_spec(),
                top <= other.level_spec(),
                forall|j: nat| level < j <= top ==> self.ancestor_at(j) != other.ancestor_at(j),
            decreases level,
        {
            level = level - 1;
        }
        let r: MortonKey = self.ancestor(level);
        proof {
            lemma_ancestor_at(*other, level as nat);
            if level == 0 {
                lemma_mod_range(self.code(), eight_pow(16));
                lemma_mod_range(other.code(), eight_pow(16));
                assert(self.code() % eight_pow(16) == self.code()) by (nonlinear_arith)
                    requires
                        self.code() < eight_pow(16),
                ;
                assert(other.code() % eight_pow(16) == other.code()) by (nonlinear_arith)
                    requires
                        other.code() < eight_pow(16),
                ;
            }
            assert(r == other.ancestor_at(level as nat));
            assert forall|k: MortonKey|
                k.wf() && k.covers(*self) && #[trigger] k.covers(*other) implies k.covers(r) by {
                lemma_covering_is_ancestor_at(k, *self);
                lemma_covering_is_ancestor_at(k, *other);
                let lk: nat = k.level_spec();
                assert(lk <= top);
                assert(lk <= level);
                lemma_width_positive(*self);
                lemma_nested_or_disjoint(k, r);
            }
        }
        r
    }

    /// The deepest cell at the anchor of the key: the first of its descendants.
    pub fn first_descendant(&self) -> (r: MortonKey)
        requires
            self.wf(),
        ensures
            r == self.first_descendant_spec(),
            r.wf(),
            r.level_spec() == 16,
            r.code() == self.code(),
    {
        proof {
            lemma_pow_values();
            lemma_key_of(self.code(), 16);
            lemma_mod_range(self.code(), 1);
            assert(eight_pow(0) == 1);
        }
        MortonKey::from_parts(self.position(), DEEPEST_LEVEL)
    }

    /// The deepest cell at the far corner of the key: the last of its descendants.
    pub fn last_descendant(&self) -> (r: MortonKey)
        requires
            self.wf(),
        ensures
            r == self.last_descendant_spec(),
            r.wf(),
            r.level_spec() == 16,
            r.end() == self.end(),
    {
        proof {
            lemma_pow_values();
            lemma_end_bound(*self);
            lemma_width_positive(*self);
            lemma_key_of((self.end() - 1) as nat, 16);
            lemma_mod_range((self.end() - 1) as nat, 1);
            assert(eight_pow(0) == 1);
        }
        MortonKey::from_parts(self.position_end() - 1, DEEPEST_LEVEL)
    }
}

} // verus!
