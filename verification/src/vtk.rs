//! The geometry of a tree as an unstructured grid: one voxel for each key, and
//! all particles as one cell of vertices.
//!
//! The grid is given in whole numbers: the corners of the voxels in steps of
//! the finest grid, and the index arrays that tie corners to cells. Scaling
//! the corners to the bounding box and writing the file is left to the caller.

use vstd::prelude::*;
use crate::powers::pow2;
use crate::morton::{cell_side, lemma_anchor_aligned, MortonKey, DEEPEST_LEVEL};
use crate::octree::{all_valid_seq, raw_key};

verus! {

/// The kind of a cell of the grid.
#[derive(Clone, Copy, Debug, PartialEq, Eq, Structural)]
pub enum CellKind {
    /// A box with eight corners: one key.
    Voxel,
    /// A set of points: the particles.
    PolyVertex,
}

/// The grid of a tree with `n` keys and `m` particles.
pub struct VtkModel {
    /// The corners of the voxels, eight for each key, key by key.
    pub corners: Vec<[u64; 3]>,
    /// The points of the cells: the corners first, then the particles.
    pub connectivity: Vec<u64>,
    /// For each cell the position in `connectivity` after its last point.
    pub offsets: Vec<u64>,
    /// The kind of each cell: a voxel for each key, then the cell of the particles.
    pub types: Vec<CellKind>,
    /// The scalar `colors` of each cell: 0 for a voxel, 1 for the particles.
    pub colors: Vec<i32>,
}

/// The corner `c` of the cell of a key, in steps: bit 0 of `c` moves it one
/// side along the first axis, bit 1 along the second, bit 2 along the third.
pub open spec fn corner_of(k: MortonKey, c: int) -> (nat, nat, nat) {
    (
        k.x() + (c % 2) as nat * cell_side(k.level_spec()),
        k.y() + ((c / 2) % 2) as nat * cell_side(k.level_spec()),
        k.z() + (c / 4) as nat * cell_side(k.level_spec()),
    )
}

impl VtkModel {
    /// The grid is that of the given keys and `particles` particles.
    pub open spec fn describes(self, keys: Seq<u64>, particles: nat) -> bool {
        &&& self.corners@.len() == 8 * keys.len()
        &&& forall|i: int, c: int|
            0 <= i < keys.len() && 0 <= c < 8 ==> (#[trigger] self.corners@[8 * i + c])[0]
                == corner_of(raw_key(keys[i]), c).0 && self.corners@[8 * i + c][1] == corner_of(
                raw_key(keys[i]),
                c,
            ).1 && self.corners@[8 * i + c][2] == corner_of(raw_key(keys[i]), c).2
        &&& self.connectivity@.len() == 8 * keys.len() + particles
        &&& forall|p: int|
            0 <= p < self.connectivity@.len() ==> #[trigger] self.connectivity@[p] == p
        &&& self.offsets@.len() == keys.len() + 1
        &&& forall|i: int| 0 <= i < keys.len() ==> #[trigger] self.offsets@[i] == 8 * i + 8
        &&& self.offsets@[keys.len() as int] == 8 * keys.len() + particles
        &&& self.types@.len() == keys.len() + 1
        &&& forall|i: int| 0 <= i < keys.len() ==> #[trigger] self.types@[i] == CellKind::Voxel
        &&& self.types@[keys.len() as int] == CellKind::PolyVertex
        &&& self.colors@.len() == keys.len() + 1
        &&& forall|i: int| 0 <= i < keys.len() ==> #[trigger] self.colors@[i] == 0
        &&& self.colors@[keys.len() as int] == 1
    }
}

/// The eight corners of the cell of a key.
pub fn box_corners(key: MortonKey) -> (r: Vec<[u64; 3]>)
    requires
        key.wf(),
    ensures
        r@.len() == 8,
        forall|c: int|
            0 <= c < 8 ==> (#[trigger] r@[c])[0] == corner_of(key, c).0 && r@[c][1] == corner_of(
                key,
                c,
            ).1 && r@[c][2] == corner_of(key, c).2,
{
    let a: [u64; 3] = key.anchor();
    let side: u64 = pow2(DEEPEST_LEVEL - key.level());
    let mut out: Vec<[u64; 3]> = Vec::new();
    let mut c: u64 = 0;
    proof {
        lemma_anchor_aligned(key);
    }
    while c < 8
        invariant
            c <= 8,
            key.wf(),
            a[0] == key.x(),
            a[1] == key.y(),
            a[2] == key.z(),
            a[0] < 65536,
            a[1] < 65536,
            a[2] < 65536,
            side == cell_side(key.level_spec()),
            side <= 65536,
            out@.len() == c,
            forall|d: int|
                0 <= d < c ==> (#[trigger] out@[d])[0] == corner_of(key, d).0 && out@[d][1]
                    == corner_of(key, d).1 && out@[d][2] == corner_of(key, d).2,
        decreases 8 - c,
    {
        let bx: u64 = c % 2;
        let by: u64 = (c / 2) % 2;
        let bz: u64 = c / 4;
        proof {
            assert(bx * side <= side && by * side <= side && bz * side <= side) by (nonlinear_arith)
                requires
                    bx <= 1,
                    by <= 1,
                    bz <= 1,
                    side >= 0,
            ;
        }
        let corner: [u64; 3] = [a[0] + bx * side, a[1] + by * side, a[2] + bz * side];
        out.push(corner);
        c = c + 1;
    }
    out
}

/// The grid of the given keys and of `particles` particles.
pub fn vtk_model(keys: &Vec<u64>, particles: usize) -> (r: VtkModel)
    requires
        all_valid_seq(keys@),
        8 * keys@.len() + particles + 8 <= u64::MAX,
        8 * keys@.len() + particles + 8 <= usize::MAX,
    ensures
        r.describes(keys@, particles as nat),
{
    let n: usize = keys.len();
    let mut corners: Vec<[u64; 3]> = Vec::new();
    let mut offsets: Vec<u64> = Vec::new();
    let mut types: Vec<CellKind> = Vec::new();
    let mut colors: Vec<i32> = Vec::new();
    let mut i: usize = 0;
    while i < n
        invariant
            i <= n,
            n == keys@.len(),
            all_valid_seq(keys@),
            8 * n + particles + 8 <= u64::MAX,
            corners@.len() == 8 * i,
            forall|j: int, c: int|
                0 <= j < i && 0 <= c < 8 ==> (#[trigger] corners@[8 * j + c])[0] == corner_of(
                    raw_key(keys@[j]),
                    c,
                ).0 && corners@[8 * j + c][1] == corner_of(raw_key(keys@[j]), c).1 && corners@[8
                    * j + c][2] == corner_of(raw_key(keys@[j]), c).2,
            offsets@.len() == i,
            forall|j: int| 0 <= j < i ==> #[trigger] offsets@[j] == 8 * j + 8,
            types@.len() == i,
            forall|j: int| 0 <= j < i ==> #[trigger] types@[j] == CellKind::Voxel,
            colors@.len() == i,
            forall|j: int| 0 <= j < i ==> #[trigger] colors@[j] == 0,
        decreases n - i,
    {
        let key: MortonKey = MortonKey { morton: keys[i] };
        let mut corners_of_key: Vec<[u64; 3]> = box_corners(key);
        let ghost before: Seq<[u64; 3]> = corners@;
        let ghost added: Seq<[u64; 3]> = corners_of_key@;
        corners.append(&mut corners_of_key);
        proof {
            assert(corners@ == before + added);
            assert forall|j: int, c: int| 0 <= j < i + 1 && 0 <= c < 8 implies (
            #[trigger] corners@[8 * j + c])[0] == corner_of(raw_key(keys@[j]), c).0 && corners@[8
                * j + c][1] == corner_of(raw_key(keys@[j]), c).1 && corners@[8 * j + c][2]
                == corner_of(raw_key(keys@[j]), c).2 by {
                if j < i {
                    assert(corners@[8 * j + c] == before[8 * j + c]);
                } else {
                    assert(corners@[8 * j + c] == added[c]);
                }
            }
        }
        offsets.push(8 * (i as u64) + 8);
        types.push(CellKind::Voxel);
        colors.push(0);
        i = i + 1;
    }
    let points: u64 = 8 * (n as u64) + (particles as u64);
    let mut connectivity: Vec<u64> = Vec::new();
    let mut p: u64 = 0;
    while p < points
        invariant
            p <= points,
            connectivity@.len() == p,
            forall|q: int| 0 <= q < p ==> #[trigger] connectivity@[q] == q,
        decreases points - p,
    {
        connectivity.push(p);
        p = p + 1;
    }
    offsets.push(points);
    types.push(CellKind::PolyVertex);
    colors.push(1);
    VtkModel { corners, connectivity, offsets, types, colors }
}

} // verus!
