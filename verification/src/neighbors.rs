//! The cells around a cell: neighbours, near field and interaction list.

use vstd::prelude::*;
use crate::powers::{lemma_two_pow_positive, pow2};
use crate::morton::{
    cell_side, child_index, lemma_anchor_aligned, lemma_anchor_determines_key,
    lemma_child, lemma_child_index, lemma_parent_of_child, MortonKey,
    DEEPEST_LEVEL, GRID_SIZE,
};

verus! {

/// Where a coordinate `n` stands against a coordinate `k`: 0 below, 1 equal, 2 above.
pub open spec fn offset_digit(n: nat, k: nat) -> nat {
    if n < k {
        0
    } else if n == k {
        1
    } else {
        2
    }
}

/// The place of the cell `n` among the twenty-seven cells around and including `k`,
/// counted along the first axis first: 13 is `k` itself.
pub open spec fn offset_index(n: MortonKey, k: MortonKey) -> nat {
    offset_digit(n.x(), k.x()) + 3 * offset_digit(n.y(), k.y()) + 9 * offset_digit(n.z(), k.z())
}

/// Two coordinates are equal or one cell side apart.
pub open spec fn within_one(n: nat, k: nat, side: nat) -> bool {
    n == k || n == k + side || n + side == k
}

impl MortonKey {
    /// `self` is a cell of the level of `k` that is `k` or touches `k`: its anchor
    /// differs from that of `k` by at most one cell side along each axis.
    pub open spec fn in_near_field_of(self, k: MortonKey) -> bool {
        &&& self.wf()
        &&& self.level_spec() == k.level_spec()
        &&& within_one(self.x(), k.x(), cell_side(k.level_spec()))
        &&& within_one(self.y(), k.y(), cell_side(k.level_spec()))
        &&& within_one(self.z(), k.z(), cell_side(k.level_spec()))
    }

    /// `self` is one of the up to twenty-six cells of the level of `k` that touch `k`.
    pub open spec fn is_neighbor_of(self, k: MortonKey) -> bool {
        self.in_near_field_of(k) && self != k
    }

    /// `self` is in the interaction list of `k`: a child of a cell in the near field
    /// of the parent of `k` that is not in the near field of `k`.
    pub open spec fn in_interaction_list_of(self, k: MortonKey) -> bool {
        &&& k.level_spec() > 0
        &&& self.wf()
        &&& self.level_spec() == k.level_spec()
        &&& self.parent_spec().in_near_field_of(k.parent_spec())
        &&& !self.in_near_field_of(k)
    }
}

/// The place of a cell of an interaction list of `k`: by the place of its parent
/// around the parent of `k`, then by its index among its siblings.
pub open spec fn interaction_rank(c: MortonKey, k: MortonKey) -> nat {
    8 * offset_index(c.parent_spec(), k.parent_spec()) + child_index(c)
}

/// A cell one side below the coordinate `c` lies in the cube.
pub open spec fn has_below(c: nat, side: nat) -> bool {
    c >= side
}

/// A cell one side above the coordinate `c` lies in the cube.
pub open spec fn has_above(c: nat, side: nat) -> bool {
    c + side < 65536
}

/// The number of cells of the cube at, below and above a coordinate.
pub open spec fn axis_count(c: nat, side: nat) -> nat {
    if has_below(c, side) && has_above(c, side) {
        3
    } else if has_below(c, side) || has_above(c, side) {
        2
    } else {
        1
    }
}

/// The number of cells in the near field of a key: between 1 and 27, and 27
/// where the key does not touch the border of the cube.
pub open spec fn near_field_size(k: MortonKey) -> nat {
    axis_count(k.x(), cell_side(k.level_spec())) * axis_count(k.y(), cell_side(k.level_spec()))
        * axis_count(k.z(), cell_side(k.level_spec()))
}

/// A cell stands at the digit of a place, given whether cells stand below and above.
pub open spec fn digit_fits(d: nat, low: bool, high: bool) -> bool {
    d == 1 || (d == 0 && low) || (d == 2 && high)
}

/// A cell stands at the place `i` around a key.
pub open spec fn place_fits(
    i: nat,
    lx: bool,
    hx: bool,
    ly: bool,
    hy: bool,
    lz: bool,
    hz: bool,
) -> bool {
    digit_fits(i % 3, lx, hx) && digit_fits((i / 3) % 3, ly, hy) && digit_fits(i / 9, lz, hz)
}

/// The number of places below `i` at which a cell stands.
pub open spec fn places_below(
    i: nat,
    lx: bool,
    hx: bool,
    ly: bool,
    hy: bool,
    lz: bool,
    hz: bool,
) -> nat
    decreases i,
{
    if i == 0 {
        0
    } else {
        places_below((i - 1) as nat, lx, hx, ly, hy, lz, hz) + if place_fits(
            (i - 1) as nat,
            lx,
            hx,
            ly,
            hy,
            lz,
            hz,
        ) {
            1nat
        } else {
            0nat
        }
    }
}

/// The number of cells along an axis, given whether cells stand below and above.
pub open spec fn count_of(low: bool, high: bool) -> nat {
    if low && high {
        3
    } else if low || high {
        2
    } else {
        1
    }
}

/// The digits of the place `dx + 3 dy + 9 dz`.
proof fn lemma_digits_of_place(dx: nat, dy: nat, dz: nat)
    requires
        dx < 3,
        dy < 3,
        dz < 3,
    ensures
        (dx + 3 * dy + 9 * dz) % 3 == dx,
        ((dx + 3 * dy + 9 * dz) / 3) % 3 == dy,
        (dx + 3 * dy + 9 * dz) / 9 == dz,
{
    let i: nat = dx + 3 * dy + 9 * dz;
    assert(i / 3 == dy + 3 * dz);
}

/// The number of cells grows by one at a place at which a cell stands.
proof fn lemma_place_step(
    dx: nat,
    dy: nat,
    dz: nat,
    lx: bool,
    hx: bool,
    ly: bool,
    hy: bool,
    lz: bool,
    hz: bool,
)
    requires
        dx < 3,
        dy < 3,
        dz < 3,
    ensures
        places_below(dx + 3 * dy + 9 * dz + 1, lx, hx, ly, hy, lz, hz) == places_below(
            dx + 3 * dy + 9 * dz,
            lx,
            hx,
            ly,
            hy,
            lz,
            hz,
        ) + if digit_fits(dx, lx, hx) && digit_fits(dy, ly, hy) && digit_fits(dz, lz, hz) {
            1nat
        } else {
            0nat
        },
{
    lemma_digits_of_place(dx, dy, dz);
    let i: nat = dx + 3 * dy + 9 * dz;
    assert(((i + 1) - 1) as nat == i);
}

/// The cells at three places in a row along the first axis.
proof fn lemma_places_row(dy: nat, dz: nat, lx: bool, hx: bool, ly: bool, hy: bool, lz: bool, hz: bool)
    requires
        dy < 3,
        dz < 3,
    ensures
        places_below(3 * dy + 9 * dz + 3, lx, hx, ly, hy, lz, hz) == places_below(
            3 * dy + 9 * dz,
            lx,
            hx,
            ly,
            hy,
            lz,
            hz,
        ) + if digit_fits(dy, ly, hy) && digit_fits(dz, lz, hz) {
            count_of(lx, hx)
        } else {
            0
        },
{
    lemma_place_step(0, dy, dz, lx, hx, ly, hy, lz, hz);
    lemma_place_step(1, dy, dz, lx, hx, ly, hy, lz, hz);
    lemma_place_step(2, dy, dz, lx, hx, ly, hy, lz, hz);
}

/// The cells at the nine places of a layer across the third axis.
proof fn lemma_places_layer(dz: nat, lx: bool, hx: bool, ly: bool, hy: bool, lz: bool, hz: bool)
    requires
        dz < 3,
    ensures
        places_below(9 * dz + 9, lx, hx, ly, hy, lz, hz) == places_below(
            9 * dz,
            lx,
            hx,
            ly,
            hy,
            lz,
            hz,
        ) + if digit_fits(dz, lz, hz) {
            count_of(lx, hx) * count_of(ly, hy)
        } else {
            0
        },
{
    lemma_places_row(0, dz, lx, hx, ly, hy, lz, hz);
    lemma_places_row(1, dz, lx, hx, ly, hy, lz, hz);
    lemma_places_row(2, dz, lx, hx, ly, hy, lz, hz);
    let along: nat = count_of(lx, hx);
    assert(along * 1 == along && along * 2 == along + along && along * 3 == along + along
        + along) by (nonlinear_arith);
}

/// The cells at the twenty-seven places are as many as the product of the
/// numbers of cells along the three axes.
proof fn lemma_places_total(lx: bool, hx: bool, ly: bool, hy: bool, lz: bool, hz: bool)
    ensures
        places_below(27, lx, hx, ly, hy, lz, hz) == count_of(lx, hx) * count_of(ly, hy) * count_of(
            lz,
            hz,
        ),
{
    assert(places_below(0, lx, hx, ly, hy, lz, hz) == 0);
    lemma_places_layer(0, lx, hx, ly, hy, lz, hz);
    lemma_places_layer(1, lx, hx, ly, hy, lz, hz);
    lemma_places_layer(2, lx, hx, ly, hy, lz, hz);
    let across: nat = count_of(lx, hx) * count_of(ly, hy);
    assert(across * 1 == across && across * 2 == across + across && across * 3 == across + across
        + across) by (nonlinear_arith);
}

/// The coordinate one side below, at, or one side above `c`, if it lies in the cube.
fn shifted(c: u64, digit: u64, side: u64) -> (r: Option<u64>)
    requires
        c < GRID_SIZE,
        digit < 3,
        1 <= side <= GRID_SIZE,
    ensures
        match r {
            Some(v) => v < GRID_SIZE && within_one(v as nat, c as nat, side as nat) && offset_digit(
                v as nat,
                c as nat,
            ) == digit,
            None => forall|v: nat|
                v < GRID_SIZE && within_one(v, c as nat, side as nat) ==> offset_digit(v, c as nat)
                    != digit,
        },
        r.is_some() == digit_fits(
            digit as nat,
            has_below(c as nat, side as nat),
            has_above(c as nat, side as nat),
        ),
{
    if digit == 0 {
        if c >= side {
            Some(c - side)
        } else {
            None
        }
    } else if digit == 1 {
        Some(c)
    } else {
        if c + side < GRID_SIZE {
            Some(c + side)
        } else {
            None
        }
    }
}

/// `n` is among the cells around `k` whose place is below `bound`.
pub open spec fn listed(n: MortonKey, k: MortonKey, bound: nat, with_self: bool) -> bool {
    n.in_near_field_of(k) && offset_index(n, k) < bound && (with_self || n != k)
}

/// The place of a cell gives its three digits.
proof fn lemma_place_digits(m: MortonKey, k: MortonKey)
    ensures
        offset_digit(m.x(), k.x()) == offset_index(m, k) % 3,
        offset_digit(m.y(), k.y()) == (offset_index(m, k) / 3) % 3,
        offset_digit(m.z(), k.z()) == offset_index(m, k) / 9,
        offset_index(m, k) < 27,
        offset_index(k, k) == 13,
{
}

/// Two cells of the near field of `k` at the same place are the same cell.
proof fn lemma_place_determines_key(m: MortonKey, n: MortonKey, k: MortonKey)
    requires
        k.wf(),
        m.in_near_field_of(k),
        n.in_near_field_of(k),
        offset_index(m, k) == offset_index(n, k),
    ensures
        m == n,
{
    lemma_place_digits(m, k);
    lemma_place_digits(n, k);
    lemma_two_pow_positive((16 - k.level_spec()) as nat);
    lemma_anchor_determines_key(m, n);
}

/// The list of cells around `k` grows by the cell at place `i`.
proof fn lemma_stencil_push(
    before: Seq<MortonKey>,
    n: MortonKey,
    k: MortonKey,
    i: nat,
    with_self: bool,
)
    requires
        k.wf(),
        forall|m: MortonKey| before.contains(m) <==> listed(m, k, i, with_self),
        n.in_near_field_of(k),
        offset_index(n, k) == i,
        with_self || n != k,
    ensures
        forall|m: MortonKey| before.push(n).contains(m) <==> listed(m, k, i + 1, with_self),
{
    let after: Seq<MortonKey> = before.push(n);
    assert forall|m: MortonKey| after.contains(m) <==> listed(m, k, i + 1, with_self) by {
        if after.contains(m) {
            let j: int = choose|j: int| 0 <= j < after.len() && after[j] == m;
            if j < before.len() {
                assert(before[j] == m);
                assert(before.contains(m));
            }
        }
        if listed(m, k, i + 1, with_self) {
            if offset_index(m, k) < i {
                assert(before.contains(m));
                let j: int = choose|j: int| 0 <= j < before.len() && before[j] == m;
                assert(after[j] == m);
            } else {
                lemma_place_determines_key(m, n, k);
                assert(after[before.len() as int] == m);
            }
        }
    }
}

/// The list of cells around `k` stays as it is where no cell stands at place
/// `i`, or only `k` itself where it is left out.
proof fn lemma_stencil_skip(s: Seq<MortonKey>, k: MortonKey, i: nat, with_self: bool)
    requires
        k.wf(),
        forall|m: MortonKey| s.contains(m) <==> listed(m, k, i, with_self),
        forall|m: MortonKey|
            #[trigger] m.in_near_field_of(k) && offset_index(m, k) == i ==> !with_self && m == k,
    ensures
        forall|m: MortonKey| s.contains(m) <==> listed(m, k, i + 1, with_self),
{
    assert forall|m: MortonKey| s.contains(m) <==> listed(m, k, i + 1, with_self) by {
        if m.in_near_field_of(k) && offset_index(m, k) == i {
            assert(!with_self && m == k);
        }
    }
}

/// Whether cells stand below and above the key along the three axes.
pub open spec fn place_fits_key(i: nat, k: MortonKey) -> bool {
    place_fits(
        i,
        has_below(k.x(), cell_side(k.level_spec())),
        has_above(k.x(), cell_side(k.level_spec())),
        has_below(k.y(), cell_side(k.level_spec())),
        has_above(k.y(), cell_side(k.level_spec())),
        has_below(k.z(), cell_side(k.level_spec())),
        has_above(k.z(), cell_side(k.level_spec())),
    )
}

/// The number of places below `i` at which a cell stands around the key.
pub open spec fn places_below_key(i: nat, k: MortonKey) -> nat {
    places_below(
        i,
        has_below(k.x(), cell_side(k.level_spec())),
        has_above(k.x(), cell_side(k.level_spec())),
        has_below(k.y(), cell_side(k.level_spec())),
        has_above(k.y(), cell_side(k.level_spec())),
        has_below(k.z(), cell_side(k.level_spec())),
        has_above(k.z(), cell_side(k.level_spec())),
    )
}

impl MortonKey {
    /// The cell at the place `i` around the key, if it lies in the cube.
    fn place_cell(&self, i: u64, a: [u64; 3], side: u64) -> (r: Option<MortonKey>)
        requires
            self.wf(),
            i < 27,
            a[0] == self.x(),
            a[1] == self.y(),
            a[2] == self.z(),
            side == cell_side(self.level_spec()),
        ensures
            match r {
                Some(n) => n.in_near_field_of(*self) && offset_index(n, *self) == i,
                None => forall|m: MortonKey|
                    #[trigger] m.in_near_field_of(*self) ==> offset_index(m, *self) != i,
            },
            r.is_some() == place_fits_key(i as nat, *self),
    {
        proof {
            lemma_anchor_aligned(*self);
            lemma_two_pow_positive((16 - self.level_spec()) as nat);
            crate::powers::lemma_two_pow_monotonic((16 - self.level_spec()) as nat, 16);
            crate::powers::lemma_pow_values();
        }
        let level: u64 = self.level();
        let dx: u64 = i % 3;
        let dy: u64 = (i / 3) % 3;
        let dz: u64 = i / 9;
        let sx: Option<u64> = shifted(a[0], dx, side);
        let sy: Option<u64> = shifted(a[1], dy, side);
        let sz: Option<u64> = shifted(a[2], dz, side);
        if sx.is_some() && sy.is_some() && sz.is_some() {
            let x: u64 = sx.unwrap();
            let y: u64 = sy.unwrap();
            let z: u64 = sz.unwrap();
            let n: MortonKey = MortonKey::from_anchor([x, y, z], level);
            proof {
                lemma_aligned_neighbor(x as nat, a[0] as nat, side as nat);
                lemma_aligned_neighbor(y as nat, a[1] as nat, side as nat);
                lemma_aligned_neighbor(z as nat, a[2] as nat, side as nat);
                assert(n.x() == x && n.y() == y && n.z() == z);
            }
            Some(n)
        } else {
            proof {
                assert forall|m: MortonKey| #[trigger] m.in_near_field_of(*self) implies offset_index(
                    m,
                    *self,
                ) != i by {
                    lemma_place_digits(m, *self);
                    lemma_anchor_aligned(m);
                }
            }
            None
        }
    }

    /// The cells of the near field of the key in the order of their place around it,
    /// the key itself among them only if `with_self` is set.
    fn stencil(&self, with_self: bool) -> (r: Vec<MortonKey>)
        requires
            self.wf(),
        ensures
            forall|n: MortonKey| #[trigger]
                r@.contains(n) <==> (n.in_near_field_of(*self) && (with_self || n != *self)),
            forall|p: int, q: int|
                0 <= p < q < r@.len() ==> offset_index(r@[p], *self) < offset_index(r@[q], *self),
            r@.len() <= 27,
            r@.len() + (if with_self {
                0nat
            } else {
                1nat
            }) == near_field_size(*self),
    {
        let a: [u64; 3] = self.anchor();
        let side: u64 = pow2(DEEPEST_LEVEL - self.level());
        let mut out: Vec<MortonKey> = Vec::new();
        let mut i: u64 = 0;
        proof {
            lemma_anchor_aligned(*self);
            lemma_place_digits(*self, *self);
            assert(self.in_near_field_of(*self));
        }
        while i < 27
            invariant
                i <= 27,
                self.wf(),
                a[0] == self.x(),
                a[1] == self.y(),
                a[2] == self.z(),
                side == cell_side(self.level_spec()),
                self.in_near_field_of(*self),
                offset_index(*self, *self) == 13,
                out@.len() <= i,
                out@.len() + (if !with_self && i > 13 {
                    1nat
                } else {
                    0nat
                }) == places_below_key(i as nat, *self),
                forall|n: MortonKey| out@.contains(n) <==> listed(n, *self, i as nat, with_self),
                forall|p: int, q: int|
                    0 <= p < q < out@.len() ==> offset_index(out@[p], *self) < offset_index(
                        out@[q],
                        *self,
                    ),
            decreases 27 - i,
        {
            let cell: Option<MortonKey> = self.place_cell(i, a, side);
            let ghost before: Seq<MortonKey> = out@;
            proof {
                assert(places_below_key((i + 1) as nat, *self) == places_below_key(i as nat, *self)
                    + if place_fits_key(i as nat, *self) {
                    1nat
                } else {
                    0nat
                });
            }
            match cell {
                Some(n) => {
                    if with_self || i != 13 {
                        proof {
                            if n == *self {
                                assert(i == 13);
                            }
                            assert forall|p: int| 0 <= p < before.len() implies offset_index(
                                before[p],
                                *self,
                            ) < i by {
                                assert(before.contains(before[p]));
                            }
                            lemma_stencil_push(before, n, *self, i as nat, with_self);
                        }
                        out.push(n);
                    } else {
                        proof {
                            assert forall|m: MortonKey|
                                #[trigger] m.in_near_field_of(*self) && offset_index(m, *self)
                                    == i implies !with_self && m == *self by {
                                lemma_place_determines_key(m, *self, *self);
                            }
                            lemma_stencil_skip(before, *self, i as nat, with_self);
                        }
                    }
                },
                None => {
                    proof {
                        lemma_stencil_skip(before, *self, i as nat, with_self);
                    }
                },
            }
            i = i + 1;
        }
        proof {
            assert forall|n: MortonKey| #[trigger]
                out@.contains(n) <==> (n.in_near_field_of(*self) && (with_self || n
                    != *self)) by {
                lemma_place_digits(n, *self);
            }
            lemma_places_total(
                has_below(self.x(), cell_side(self.level_spec())),
                has_above(self.x(), cell_side(self.level_spec())),
                has_below(self.y(), cell_side(self.level_spec())),
                has_above(self.y(), cell_side(self.level_spec())),
                has_below(self.z(), cell_side(self.level_spec())),
                has_above(self.z(), cell_side(self.level_spec())),
            );
        }
        out
    }

    /// The up to twenty-six cells of the level of the key that touch it; cells
    /// outside the cube are left out.
    pub fn neighbors(&self) -> (r: Vec<MortonKey>)
        requires
            self.wf(),
        ensures
            forall|n: MortonKey| #[trigger] r@.contains(n) <==> n.is_neighbor_of(*self),
            forall|p: int, q: int|
                0 <= p < q < r@.len() ==> offset_index(r@[p], *self) < offset_index(r@[q], *self),
            r@.len() <= 26,
            r@.len() + 1 == near_field_size(*self),
            forall|t: int| 0 <= t < r@.len() ==> (#[trigger] r@[t]).wf(),
    {
        let out: Vec<MortonKey> = self.stencil(false);
        proof {
            assert forall|t: int| 0 <= t < out@.len() implies (#[trigger] out@[t]).wf() by {
                assert(out@.contains(out@[t]));
            }
            lemma_size_cases(*self);
        }
        out
    }

    /// Whether `other` is the key or one of its neighbours.
    pub fn is_adjacent(&self, other: &MortonKey) -> (r: bool)
        requires
            self.wf(),
            other.wf(),
        ensures
            r == other.in_near_field_of(*self),
    {
        let level: u64 = self.level();
        if other.level() != level {
            return false;
        }
        let a: [u64; 3] = self.anchor();
        let b: [u64; 3] = other.anchor();
        let side: u64 = pow2(DEEPEST_LEVEL - level);
        proof {
            lemma_anchor_aligned(*self);
            lemma_anchor_aligned(*other);
        }
        close(b[0], a[0], side) && close(b[1], a[1], side) && close(b[2], a[2], side)
    }
}

/// Whether two coordinates are equal or one cell side apart.
fn close(n: u64, k: u64, side: u64) -> (r: bool)
    requires
        n < GRID_SIZE,
        k < GRID_SIZE,
        side <= GRID_SIZE,
    ensures
        r == within_one(n as nat, k as nat, side as nat),
{
    n == k || n == k + side || n + side == k
}

/// A coordinate one side away from a coordinate on the grid of a level is on
/// that grid too.
proof fn lemma_aligned_neighbor(v: nat, c: nat, side: nat)
    requires
        side > 0,
        c % side == 0,
        within_one(v, c, side),
    ensures
        v % side == 0,
        v - v % side == v,
{
    if v == c + side {
        vstd::arithmetic::div_mod::lemma_mod_multiples_vanish(1, c as int, side as int);
    } else if v + side == c {
        vstd::arithmetic::div_mod::lemma_mod_multiples_vanish(-1, c as int, side as int);
    }
}

/// The near field of a key: the key and its neighbours, in the order of their
/// places around it.
pub fn compute_near_field(key: MortonKey) -> (r: Vec<MortonKey>)
    requires
        key.wf(),
    ensures
        forall|n: MortonKey| #[trigger] r@.contains(n) <==> n.in_near_field_of(key),
        forall|p: int, q: int|
            0 <= p < q < r@.len() ==> offset_index(r@[p], key) < offset_index(r@[q], key),
        1 <= r@.len() <= 27,
        r@.len() == near_field_size(key),
        forall|t: int| 0 <= t < r@.len() ==> (#[trigger] r@[t]).wf(),
{
    let out: Vec<MortonKey> = key.stencil(true);
    proof {
        assert forall|t: int| 0 <= t < out@.len() implies (#[trigger] out@[t]).wf() by {
            assert(out@.contains(out@[t]));
        }
        lemma_anchor_aligned(key);
        assert(key.in_near_field_of(key));
        assert(out@.contains(key));
    }
    out
}

/// The numbers of cells along three axes multiply to between 1 and 27, and to
/// 27 only where there are three along each axis; otherwise to 18 at most.
proof fn lemma_size_cases(k: MortonKey)
    ensures
        1 <= near_field_size(k) <= 27,
        near_field_size(k) != 27 ==> near_field_size(k) <= 18,
        near_field_size(k) == 27 <==> (axis_count(k.x(), cell_side(k.level_spec())) == 3
            && axis_count(k.y(), cell_side(k.level_spec())) == 3 && axis_count(
            k.z(),
            cell_side(k.level_spec()),
        ) == 3),
{
    let cx: nat = axis_count(k.x(), cell_side(k.level_spec()));
    let cy: nat = axis_count(k.y(), cell_side(k.level_spec()));
    let cz: nat = axis_count(k.z(), cell_side(k.level_spec()));
    assert(1 <= cx * cy * cz <= 27 && (cx * cy * cz != 27 ==> cx * cy * cz <= 18) && (cx * cy * cz
        == 27 <==> (cx == 3 && cy == 3 && cz == 3))) by (nonlinear_arith)
        requires
            1 <= cx <= 3,
            1 <= cy <= 3,
            1 <= cz <= 3,
    ;
}

/// Two coordinates on the grid of a level that are at most one side apart are
/// at most one side of the level above apart when rounded down to its grid.
proof fn lemma_round_near(a: nat, b: nat, s: nat)
    requires
        s > 0,
        a % s == 0,
        b % s == 0,
        within_one(b, a, s),
    ensures
        within_one((b - b % (2 * s)) as nat, (a - a % (2 * s)) as nat, 2 * s),
        a - a % (2 * s) <= a <= a - a % (2 * s) + s,
{
    let big: nat = 2 * s;
    crate::powers::lemma_round_down(a, big);
    crate::powers::lemma_round_down(b, big);
    let ra: nat = (a - a % big) as nat;
    let rb: nat = (b - b % big) as nat;
    assert(big % s == 0) by (nonlinear_arith)
        requires
            big == 2 * s,
            s > 0,
    ;
    crate::powers::lemma_multiple_of_multiple(ra, big, s);
    crate::powers::lemma_multiple_of_multiple(rb, big, s);
    crate::powers::lemma_add_multiple(ra, s, 1);
    crate::powers::lemma_add_multiple(rb, s, 1);
    assert(1 * s == s);
    if ra < a {
        crate::powers::lemma_multiple_gap(ra, a, s);
        if ra + s < a {
            crate::powers::lemma_multiple_gap(ra + s, a, s);
        }
    }
    if rb < b {
        crate::powers::lemma_multiple_gap(rb, b, s);
        if rb + s < b {
            crate::powers::lemma_multiple_gap(rb + s, b, s);
        }
    }
    if ra < rb {
        crate::powers::lemma_multiple_gap(ra, rb, big);
    } else if rb < ra {
        crate::powers::lemma_multiple_gap(rb, ra, big);
    }
}

/// The parent of a cell in the near field of a key is in the near field of the
/// parent of the key.
pub proof fn lemma_near_parent(n: MortonKey, k: MortonKey)
    requires
        k.wf(),
        k.level_spec() > 0,
        n.in_near_field_of(k),
    ensures
        n.parent_spec().in_near_field_of(k.parent_spec()),
{
    let s: nat = cell_side(k.level_spec());
    lemma_two_pow_positive((16 - k.level_spec()) as nat);
    crate::morton::lemma_parent_anchor(n);
    crate::morton::lemma_parent_anchor(k);
    crate::morton::lemma_parent(n);
    crate::morton::lemma_parent(k);
    lemma_anchor_aligned(n);
    lemma_anchor_aligned(k);
    lemma_round_near(k.x(), n.x(), s);
    lemma_round_near(k.y(), n.y(), s);
    lemma_round_near(k.z(), n.z(), s);
}

/// A child of a key that does not touch the border of the cube does not touch
/// it either: its near field has all twenty-seven cells.
proof fn lemma_interior_child(k: MortonKey)
    requires
        k.wf(),
        k.level_spec() > 0,
        near_field_size(k.parent_spec()) == 27,
    ensures
        near_field_size(k) == 27,
{
    let s: nat = cell_side(k.level_spec());
    let p: MortonKey = k.parent_spec();
    lemma_two_pow_positive((16 - k.level_spec()) as nat);
    crate::morton::lemma_parent_anchor(k);
    crate::morton::lemma_parent(k);
    lemma_anchor_aligned(k);
    lemma_size_cases(p);
    lemma_size_cases(k);
    lemma_round_near(k.x(), k.x(), s);
    lemma_round_near(k.y(), k.y(), s);
    lemma_round_near(k.z(), k.z(), s);
}

/// Whether the list holds the key.
fn holds_key(list: &Vec<MortonKey>, k: &MortonKey) -> (r: bool)
    ensures
        r == list@.contains(*k),
{
    let mut a: usize = 0;
    while a < list.len()
        invariant
            a <= list@.len(),
            forall|b: int| 0 <= b < a ==> list@[b] != *k,
        decreases list@.len() - a,
    {
        if list[a] == *k {
            return true;
        }
        a = a + 1;
    }
    false
}

/// `c` is a child of `n`.
pub open spec fn is_child_of(c: MortonKey, n: MortonKey) -> bool {
    c.wf() && c.level_spec() == n.level_spec() + 1 && c.parent_spec() == n
}

/// Adds to `out` the children of `n` that are not in the near field `mine` of
/// the key, in their order, and tells which children it has left out.
fn push_far_children(n: MortonKey, key: MortonKey, mine: &Vec<MortonKey>, out: &mut Vec<MortonKey>) -> (skipped:
    Ghost<Seq<MortonKey>>)
    requires
        n.wf(),
        key.wf(),
        n.level_spec() + 1 == key.level_spec(),
        forall|x: MortonKey| #[trigger] mine@.contains(x) <==> x.in_near_field_of(key),
    ensures
        final(out)@.len() + skipped@.len() == old(out)@.len() + 8,
        final(out)@.len() >= old(out)@.len(),
        final(out)@.take(old(out)@.len() as int) == old(out)@,
        forall|j: int|
            old(out)@.len() <= j < final(out)@.len() ==> is_child_of(#[trigger] final(out)@[j], n)
                && !final(out)@[j].in_near_field_of(key),
        forall|i: int, j: int|
            old(out)@.len() <= i < j < final(out)@.len() ==> child_index(final(out)@[i])
                < child_index(final(out)@[j]),
        forall|c: MortonKey|
            is_child_of(c, n) && !c.in_near_field_of(key) ==> #[trigger] final(out)@.contains(c),
        forall|c: MortonKey|
            is_child_of(c, n) && c.in_near_field_of(key) ==> #[trigger] skipped@.contains(c),
        forall|j: int|
            0 <= j < skipped@.len() ==> is_child_of(#[trigger] skipped@[j], n)
                && skipped@[j].in_near_field_of(key),
        forall|i: int, j: int|
            0 <= i < j < skipped@.len() ==> child_index(skipped@[i]) < child_index(skipped@[j]),
{
    let kids: Vec<MortonKey> = n.children();
    let ghost start: Seq<MortonKey> = out@;
    let ghost mut skipped: Seq<MortonKey> = Seq::empty();
    let mut q: usize = 0;
    proof {
        assert(out@.take(start.len() as int) =~= start);
    }
    while q < 8
        invariant
            q <= 8,
            n.wf(),
            key.wf(),
            n.level_spec() + 1 == key.level_spec(),
            kids@.len() == 8,
            forall|i: int| 0 <= i < 8 ==> kids@[i] == n.child_spec(i as nat),
            forall|x: MortonKey| #[trigger] mine@.contains(x) <==> x.in_near_field_of(key),
            out@.len() + skipped.len() == start.len() + q,
            out@.len() >= start.len(),
            out@.take(start.len() as int) == start,
            forall|j: int|
                start.len() <= j < out@.len() ==> is_child_of(#[trigger] out@[j], n)
                    && !out@[j].in_near_field_of(key) && child_index(out@[j]) < q,
            forall|i: int, j: int|
                start.len() <= i < j < out@.len() ==> child_index(out@[i]) < child_index(out@[j]),
            forall|t: int|
                0 <= t < q && !(#[trigger] kids@[t]).in_near_field_of(key) ==> out@.contains(
                    kids@[t],
                ),
            forall|t: int|
                0 <= t < q && (#[trigger] kids@[t]).in_near_field_of(key) ==> skipped.contains(
                    kids@[t],
                ),
            forall|j: int|
                0 <= j < skipped.len() ==> is_child_of(#[trigger] skipped[j], n)
                    && skipped[j].in_near_field_of(key) && child_index(skipped[j]) < q,
            forall|i: int, j: int|
                0 <= i < j < skipped.len() ==> child_index(skipped[i]) < child_index(skipped[j]),
        decreases 8 - q,
    {
        let c: MortonKey = kids[q];
        let ghost before: Seq<MortonKey> = out@;
        let ghost skipped_before: Seq<MortonKey> = skipped;
        proof {
            lemma_child(n, q as nat);
            lemma_parent_of_child(n, q as nat);
            lemma_child_index(n, q as nat);
        }
        if holds_key(mine, &c) {
            proof {
                skipped = skipped.push(c);
                assert(skipped[skipped_before.len() as int] == c);
                assert forall|j: int| 0 <= j < skipped.len() implies is_child_of(
                    #[trigger] skipped[j],
                    n,
                ) && skipped[j].in_near_field_of(key) && child_index(skipped[j]) < q + 1 by {
                    if j < skipped_before.len() {
                        assert(skipped[j] == skipped_before[j]);
                    }
                }
                assert forall|i: int, j: int| 0 <= i < j < skipped.len() implies child_index(
                    skipped[i],
                ) < child_index(skipped[j]) by {
                    assert(skipped[i] == skipped_before[i]);
                    if j < skipped_before.len() {
                        assert(skipped[j] == skipped_before[j]);
                    }
                }
                assert forall|t: int|
                    0 <= t < q + 1 && (#[trigger] kids@[t]).in_near_field_of(key) implies skipped.contains(
                    kids@[t],
                ) by {
                    if t < q {
                        assert(skipped_before.contains(kids@[t]));
                        let w: int = choose|w: int|
                            0 <= w < skipped_before.len() && skipped_before[w] == kids@[t];
                        assert(skipped[w] == kids@[t]);
                    }
                }
            }
        } else {
            out.push(c);
            proof {
                assert(out@[before.len() as int] == c);
                assert(out@.take(start.len() as int) =~= before.take(start.len() as int));
                assert forall|t: int|
                    0 <= t < q + 1 && !(#[trigger] kids@[t]).in_near_field_of(key) implies out@.contains(
                    kids@[t],
                ) by {
                    if t < q {
                        assert(before.contains(kids@[t]));
                        let w: int = choose|w: int| 0 <= w < before.len() && before[w] == kids@[t];
                        assert(out@[w] == kids@[t]);
                    }
                }
                assert forall|j: int| start.len() <= j < out@.len() implies is_child_of(
                    #[trigger] out@[j],
                    n,
                ) && !out@[j].in_near_field_of(key) && child_index(out@[j]) < q + 1 by {
                    if j < before.len() {
                        assert(out@[j] == before[j]);
                    }
                }
                assert forall|i: int, j: int| start.len() <= i < j < out@.len() implies child_index(
                    out@[i],
                ) < child_index(out@[j]) by {
                    assert(out@[i] == before[i]);
                    if j < before.len() {
                        assert(out@[j] == before[j]);
                    }
                }
            }
        }
        q = q + 1;
    }
    proof {
        assert forall|c: MortonKey|
            is_child_of(c, n) && !c.in_near_field_of(key) implies #[trigger] out@.contains(c) by {
            crate::morton::lemma_child_of_parent(c);
            let t: int = child_index(c) as int;
            assert(kids@[t] == c);
        }
        assert forall|c: MortonKey|
            is_child_of(c, n) && c.in_near_field_of(key) implies #[trigger] skipped.contains(c) by {
            crate::morton::lemma_child_of_parent(c);
            let t: int = child_index(c) as int;
            assert(kids@[t] == c);
        }
    }
    Ghost(skipped)
}

/// The interaction list of a key: the children of the near field of its parent
/// that are not in its own near field. They are eight for each cell of the near
/// field of the parent, less the cells of the near field of the key: at most
/// 189, and 189 where the parent does not touch the border of the cube. The
/// root has none.
pub fn compute_interaction_list(key: MortonKey) -> (r: Vec<MortonKey>)
    requires
        key.wf(),
    ensures
        forall|c: MortonKey| #[trigger] r@.contains(c) <==> c.in_interaction_list_of(key),
        forall|p: int, q: int|
            0 <= p < q < r@.len() ==> interaction_rank(r@[p], key) < interaction_rank(r@[q], key),
        r@.len() <= 189,
        key.level_spec() == 0 ==> r@.len() == 0,
        key.level_spec() > 0 ==> r@.len() + near_field_size(key) == 8 * near_field_size(
            key.parent_spec(),
        ),
        key.level_spec() > 0 && near_field_size(key.parent_spec()) == 27 ==> r@.len() == 189,
        forall|t: int| 0 <= t < r@.len() ==> (#[trigger] r@[t]).wf(),
{
    let mut out: Vec<MortonKey> = Vec::new();
    if key.level() == 0 {
        return out;
    }
    let parent: MortonKey = key.parent();
    let near: Vec<MortonKey> = compute_near_field(parent);
    let mine: Vec<MortonKey> = compute_near_field(key);
    let ghost mut skipped: Seq<MortonKey> = Seq::empty();
    let mut p: usize = 0;
    while p < near.len()
        invariant
            p <= near@.len() <= 27,
            key.wf(),
            key.level_spec() > 0,
            parent == key.parent_spec(),
            parent.wf(),
            parent.level_spec() == key.level_spec() - 1,
            forall|n: MortonKey| #[trigger] near@.contains(n) <==> n.in_near_field_of(parent),
            forall|x: MortonKey| #[trigger] mine@.contains(x) <==> x.in_near_field_of(key),
            forall|i: int, j: int|
                0 <= i < j < near@.len() ==> offset_index(near@[i], parent) < offset_index(
                    near@[j],
                    parent,
                ),
            out@.len() + skipped.len() == 8 * p,
            forall|j: int|
                0 <= j < out@.len() ==> (#[trigger] out@[j]).in_interaction_list_of(key),
            forall|c: MortonKey|
                c.in_interaction_list_of(key) && (exists|i: int|
                    0 <= i < p && near@[i] == c.parent_spec()) ==> #[trigger] out@.contains(c),
            forall|c: MortonKey|
                c.in_near_field_of(key) && (exists|i: int|
                    0 <= i < p && near@[i] == c.parent_spec()) ==> #[trigger] skipped.contains(c),
            forall|i: int, j: int|
                0 <= i < j < out@.len() ==> interaction_rank(out@[i], key) < interaction_rank(
                    out@[j],
                    key,
                ),
            forall|i: int|
                0 <= i < out@.len() && p < near@.len() ==> interaction_rank(#[trigger] out@[i], key)
                    < 8 * offset_index(near@[p as int], parent),
            left_out_in_order(skipped, near@, p as int, key),
        decreases near@.len() - p,
    {
        let n: MortonKey = near[p];
        let ghost before: Seq<MortonKey> = out@;
        let ghost skipped_before: Seq<MortonKey> = skipped;
        proof {
            assert(near@[p as int] == n);
            assert(near@.contains(n));
            assert(n.in_near_field_of(parent));
        }
        let Ghost(left_out) = push_far_children(n, key, &mine, &mut out);
        proof {
            skipped = skipped_before + left_out;
            lemma_left_out_step(skipped_before, left_out, near@, p as int, key);
            lemma_far_children_step(
                before,
                out@,
                skipped_before,
                left_out,
                near@,
                p as int,
                key,
            );
        }
        p = p + 1;
    }
    proof {
        assert forall|c: MortonKey| #[trigger] out@.contains(c) <==> c.in_interaction_list_of(
            key,
        ) by {
            if out@.contains(c) {
                let j: int = choose|j: int| 0 <= j < out@.len() && out@[j] == c;
                assert(out@[j].in_interaction_list_of(key));
            }
            if c.in_interaction_list_of(key) {
                assert(near@.contains(c.parent_spec()));
                let i: int = choose|i: int| 0 <= i < near@.len() && near@[i] == c.parent_spec();
            }
        }
        assert forall|t: int| 0 <= t < out@.len() implies (#[trigger] out@[t]).wf() by {
            assert(out@[t].in_interaction_list_of(key));
        }
        // every cell of the near field of the key was left out
        assert forall|t: int| 0 <= t < mine@.len() implies skipped.contains(
            #[trigger] mine@[t],
        ) by {
            let c: MortonKey = mine@[t];
            assert(mine@.contains(c));
            lemma_near_parent(c, key);
            assert(near@.contains(c.parent_spec()));
            let i: int = choose|i: int| 0 <= i < near@.len() && near@[i] == c.parent_spec();
        }
        lemma_at_least(mine@, skipped, key);
        lemma_left_out_few(skipped, mine@, near@, key);
        lemma_size_cases(parent);
        lemma_size_cases(key);
        if near_field_size(parent) == 27 {
            lemma_interior_child(key);
        }
    }
    out
}

/// The cells that were left out are cells of the near field of the key, stand in
/// the order of their ranks, and their parents stand before the place `p` of
/// the near field of the parent.
pub open spec fn left_out_in_order(
    skipped: Seq<MortonKey>,
    near: Seq<MortonKey>,
    p: int,
    key: MortonKey,
) -> bool {
    &&& forall|j: int| 0 <= j < skipped.len() ==> (#[trigger] skipped[j]).in_near_field_of(key)
    &&& forall|i: int, j: int|
        0 <= i < j < skipped.len() ==> interaction_rank(skipped[i], key) < interaction_rank(
            skipped[j],
            key,
        )
    &&& forall|i: int|
        0 <= i < skipped.len() && p < near.len() ==> interaction_rank(#[trigger] skipped[i], key) < 8
            * offset_index(near[p], key.parent_spec())
}

/// The cells left out stay in order when the children of one more cell of the
/// near field of the parent have been gone through.
proof fn lemma_left_out_step(
    before: Seq<MortonKey>,
    left_out: Seq<MortonKey>,
    near: Seq<MortonKey>,
    p: int,
    key: MortonKey,
)
    requires
        key.wf(),
        key.level_spec() > 0,
        0 <= p < near.len(),
        forall|i: int, j: int|
            0 <= i < j < near.len() ==> offset_index(near[i], key.parent_spec()) < offset_index(
                near[j],
                key.parent_spec(),
            ),
        left_out_in_order(before, near, p, key),
        forall|j: int|
            0 <= j < left_out.len() ==> is_child_of(#[trigger] left_out[j], near[p])
                && left_out[j].in_near_field_of(key),
        forall|i: int, j: int|
            0 <= i < j < left_out.len() ==> child_index(left_out[i]) < child_index(left_out[j]),
    ensures
        left_out_in_order(before + left_out, near, p + 1, key),
{
    let all: Seq<MortonKey> = before + left_out;
    let n: MortonKey = near[p];
    let parent: MortonKey = key.parent_spec();
    assert forall|j: int| 0 <= j < all.len() implies (#[trigger] all[j]).in_near_field_of(key) && (j
        >= before.len() ==> interaction_rank(all[j], key) == 8 * offset_index(n, parent)
        + child_index(all[j]) && child_index(all[j]) < 8) by {
        if j < before.len() {
            assert(all[j] == before[j]);
        } else {
            assert(all[j] == left_out[j - before.len()]);
            assert(is_child_of(all[j], n));
            crate::morton::lemma_child_of_parent(all[j]);
        }
    }
    assert forall|i: int, j: int| 0 <= i < j < all.len() implies interaction_rank(all[i], key)
        < interaction_rank(all[j], key) by {
        if j < before.len() {
            assert(all[i] == before[i]);
            assert(all[j] == before[j]);
        } else if i < before.len() {
            assert(all[i] == before[i]);
            assert(interaction_rank(before[i], key) < 8 * offset_index(n, parent));
        } else {
            assert(all[i] == left_out[i - before.len()]);
            assert(all[j] == left_out[j - before.len()]);
        }
    }
    if p + 1 < near.len() {
        assert(offset_index(near[p], parent) < offset_index(near[p + 1], parent));
        assert forall|i: int| 0 <= i < all.len() implies interaction_rank(#[trigger] all[i], key) < 8
            * offset_index(near[p + 1], parent) by {
            if i < before.len() {
                assert(all[i] == before[i]);
                assert(interaction_rank(before[i], key) < 8 * offset_index(n, parent));
            }
        }
    }
}

/// The cells left out are no more than the cells of the near field of the key.
proof fn lemma_left_out_few(
    skipped: Seq<MortonKey>,
    mine: Seq<MortonKey>,
    near: Seq<MortonKey>,
    key: MortonKey,
)
    requires
        left_out_in_order(skipped, near, near.len() as int, key),
        forall|x: MortonKey| #[trigger] mine.contains(x) <==> x.in_near_field_of(key),
    ensures
        skipped.len() <= mine.len(),
{
    assert(skipped.no_duplicates()) by {
        assert forall|i: int, j: int| 0 <= i < skipped.len() && 0 <= j < skipped.len() && i
            != j implies skipped[i] != skipped[j] by {
            if i < j {
                assert(interaction_rank(skipped[i], key) < interaction_rank(skipped[j], key));
            } else {
                assert(interaction_rank(skipped[j], key) < interaction_rank(skipped[i], key));
            }
        }
    }
    skipped.unique_seq_to_set();
    mine.lemma_cardinality_of_set();
    assert(skipped.to_set().subset_of(mine.to_set())) by {
        assert forall|x: MortonKey| skipped.to_set().contains(x) implies mine.to_set().contains(
            x,
        ) by {
            assert(skipped.contains(x));
            let t: int = choose|t: int| 0 <= t < skipped.len() && skipped[t] == x;
            assert(skipped[t].in_near_field_of(key));
            assert(mine.contains(x));
        }
    }
    vstd::seq_lib::seq_to_set_is_finite(mine);
    vstd::set_lib::lemma_len_subset(skipped.to_set(), mine.to_set());
}

/// A list that holds every cell of a list in the order of places is at least as long.
proof fn lemma_at_least(mine: Seq<MortonKey>, other: Seq<MortonKey>, k: MortonKey)
    requires
        forall|p: int, q: int|
            0 <= p < q < mine.len() ==> offset_index(mine[p], k) < offset_index(mine[q], k),
        forall|t: int| 0 <= t < mine.len() ==> other.contains(#[trigger] mine[t]),
    ensures
        mine.len() <= other.len(),
{
    assert(mine.no_duplicates()) by {
        assert forall|i: int, j: int| 0 <= i < mine.len() && 0 <= j < mine.len() && i
            != j implies mine[i] != mine[j] by {
            if i < j {
                assert(offset_index(mine[i], k) < offset_index(mine[j], k));
            } else {
                assert(offset_index(mine[j], k) < offset_index(mine[i], k));
            }
        }
    }
    mine.unique_seq_to_set();
    other.lemma_cardinality_of_set();
    assert(mine.to_set().subset_of(other.to_set())) by {
        assert forall|x: MortonKey| mine.to_set().contains(x) implies other.to_set().contains(x) by {
            assert(mine.contains(x));
            let t: int = choose|t: int| 0 <= t < mine.len() && mine[t] == x;
            assert(other.contains(mine[t]));
        }
    }
    vstd::seq_lib::seq_to_set_is_finite(other);
    vstd::set_lib::lemma_len_subset(mine.to_set(), other.to_set());
}

/// What the interaction list holds after the children of one more cell of the
/// near field of the parent have been gone through.
proof fn lemma_far_children_step(
    before: Seq<MortonKey>,
    after: Seq<MortonKey>,
    skipped_before: Seq<MortonKey>,
    left_out: Seq<MortonKey>,
    near: Seq<MortonKey>,
    p: int,
    key: MortonKey,
)
    requires
        key.wf(),
        key.level_spec() > 0,
        0 <= p < near.len(),
        near[p].in_near_field_of(key.parent_spec()),
        forall|i: int, j: int|
            0 <= i < j < near.len() ==> offset_index(near[i], key.parent_spec()) < offset_index(
                near[j],
                key.parent_spec(),
            ),
        before.len() + skipped_before.len() == 8 * p,
        forall|j: int| 0 <= j < before.len() ==> (#[trigger] before[j]).in_interaction_list_of(key),
        forall|c: MortonKey|
            c.in_interaction_list_of(key) && (exists|i: int|
                0 <= i < p && near[i] == c.parent_spec()) ==> #[trigger] before.contains(c),
        forall|c: MortonKey|
            c.in_near_field_of(key) && (exists|i: int| 0 <= i < p && near[i] == c.parent_spec())
                ==> #[trigger] skipped_before.contains(c),
        forall|i: int, j: int|
            0 <= i < j < before.len() ==> interaction_rank(before[i], key) < interaction_rank(
                before[j],
                key,
            ),
        forall|i: int|
            0 <= i < before.len() ==> interaction_rank(#[trigger] before[i], key) < 8 * offset_index(
                near[p],
                key.parent_spec(),
            ),
        after.len() + left_out.len() == before.len() + 8,
        after.len() >= before.len(),
        after.take(before.len() as int) == before,
        forall|j: int|
            before.len() <= j < after.len() ==> is_child_of(#[trigger] after[j], near[p])
                && !after[j].in_near_field_of(key),
        forall|i: int, j: int|
            before.len() <= i < j < after.len() ==> child_index(after[i]) < child_index(after[j]),
        forall|c: MortonKey|
            is_child_of(c, near[p]) && !c.in_near_field_of(key) ==> #[trigger] after.contains(c),
        forall|c: MortonKey|
            is_child_of(c, near[p]) && c.in_near_field_of(key) ==> #[trigger] left_out.contains(c),
    ensures
        after.len() + (skipped_before + left_out).len() == 8 * (p + 1),
        forall|j: int| 0 <= j < after.len() ==> (#[trigger] after[j]).in_interaction_list_of(key),
        forall|c: MortonKey|
            c.in_interaction_list_of(key) && (exists|i: int|
                0 <= i < p + 1 && near[i] == c.parent_spec()) ==> #[trigger] after.contains(c),
        forall|c: MortonKey|
            c.in_near_field_of(key) && (exists|i: int|
                0 <= i < p + 1 && near[i] == c.parent_spec()) ==> #[trigger] (skipped_before
                + left_out).contains(c),
        forall|i: int, j: int|
            0 <= i < j < after.len() ==> interaction_rank(after[i], key) < interaction_rank(
                after[j],
                key,
            ),
        forall|i: int|
            0 <= i < after.len() && p + 1 < near.len() ==> interaction_rank(
                #[trigger] after[i],
                key,
            ) < 8 * offset_index(near[p + 1], key.parent_spec()),
{
    let n: MortonKey = near[p];
    let parent: MortonKey = key.parent_spec();
    let all: Seq<MortonKey> = skipped_before + left_out;
    crate::morton::lemma_parent(key);
    assert forall|j: int| 0 <= j < after.len() implies (#[trigger] after[j]).in_interaction_list_of(
        key,
    ) && (j >= before.len() ==> interaction_rank(after[j], key) == 8 * offset_index(n, parent)
        + child_index(after[j]) && child_index(after[j]) < 8) by {
        if j < before.len() {
            assert(after.take(before.len() as int)[j] == after[j]);
            assert(after[j] == before[j]);
        } else {
            assert(is_child_of(after[j], n));
            crate::morton::lemma_child_of_parent(after[j]);
        }
    }
    assert forall|c: MortonKey|
        c.in_interaction_list_of(key) && (exists|i: int|
            0 <= i < p + 1 && near[i] == c.parent_spec()) implies #[trigger] after.contains(c) by {
        let i: int = choose|i: int| 0 <= i < p + 1 && near[i] == c.parent_spec();
        if i < p {
            assert(before.contains(c));
            let w: int = choose|w: int| 0 <= w < before.len() && before[w] == c;
            assert(after.take(before.len() as int)[w] == after[w]);
            assert(after[w] == c);
        } else {
            assert(is_child_of(c, n));
        }
    }
    assert forall|c: MortonKey|
        c.in_near_field_of(key) && (exists|i: int|
            0 <= i < p + 1 && near[i] == c.parent_spec()) implies #[trigger] all.contains(c) by {
        let i: int = choose|i: int| 0 <= i < p + 1 && near[i] == c.parent_spec();
        if i < p {
            assert(skipped_before.contains(c));
            let w: int = choose|w: int| 0 <= w < skipped_before.len() && skipped_before[w] == c;
            assert(all[w] == c);
        } else {
            assert(is_child_of(c, n));
            assert(left_out.contains(c));
            let w: int = choose|w: int| 0 <= w < left_out.len() && left_out[w] == c;
            assert(all[skipped_before.len() + w] == c);
        }
    }
    assert forall|i: int, j: int| 0 <= i < j < after.len() implies interaction_rank(after[i], key)
        < interaction_rank(after[j], key) by {
        if j < before.len() {
            assert(after.take(before.len() as int)[i] == after[i]);
            assert(after.take(before.len() as int)[j] == after[j]);
        } else if i < before.len() {
            assert(after.take(before.len() as int)[i] == after[i]);
            assert(interaction_rank(before[i], key) < 8 * offset_index(n, parent));
        }
    }
    if p + 1 < near.len() {
        assert(offset_index(near[p], parent) < offset_index(near[p + 1], parent));
        assert forall|i: int| 0 <= i < after.len() implies interaction_rank(
            #[trigger] after[i],
            key,
        ) < 8 * offset_index(near[p + 1], parent) by {
            if i < before.len() {
                assert(after.take(before.len() as int)[i] == after[i]);
                assert(interaction_rank(before[i], key) < 8 * offset_index(n, parent));
            }
        }
    }
}

} // verus!
