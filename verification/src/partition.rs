//! The partition of keys over processes by sample sort.
//!
//! Every process picks samples of its sorted keys. The samples of all processes,
//! sorted, give the splitters: one fewer than there are processes. A process
//! then cuts its keys at the splitters into one bin for each process, and
//! merges the bins that it receives. What the processes send each other is not
//! this module's part: it says what to pick, where to cut and how to merge.

use vstd::prelude::*;
use crate::morton::MortonKey;
use crate::linear::{
    is_linear, is_sorted, is_strictly_sorted, lemma_linear_sorted, lemma_tiles_concat,
    lemma_tiles_linear, tiles,
};
use crate::sorting::sort_keys;

verus! {

/// The position of the `i`-th of `parts` equally spaced cuts through `len` items.
pub open spec fn spaced_index(i: nat, len: nat, parts: nat) -> nat {
    (i * len) / parts
}

/// The `parts - 1` equally spaced picks from a sequence; none from an empty one.
pub open spec fn picks(s: Seq<MortonKey>, parts: nat) -> Seq<MortonKey> {
    if s.len() == 0 {
        Seq::empty()
    } else {
        Seq::new((parts - 1) as nat, |i: int| s[spaced_index((i + 1) as nat, s.len(), parts) as int])
    }
}

/// The splitters that the samples give: the picks from the samples in Morton order.
pub open spec fn is_splitters_of(
    splitters: Seq<MortonKey>,
    samples: Seq<MortonKey>,
    parts: nat,
) -> bool {
    exists|s: Seq<MortonKey>| #[trigger]
        is_sorted(s) && s.to_multiset() == samples.to_multiset() && splitters == picks(s, parts)
}

/// All the sequences, one after the other.
pub open spec fn concat(blocks: Seq<Seq<MortonKey>>) -> Seq<MortonKey>
    decreases blocks.len(),
{
    if blocks.len() == 0 {
        Seq::empty()
    } else {
        concat(blocks.drop_last()) + blocks.last()
    }
}

/// The keys of all the vectors, one vector after the other.
pub open spec fn concat_views(bins: Seq<Vec<MortonKey>>) -> Seq<MortonKey>
    decreases bins.len(),
{
    if bins.len() == 0 {
        Seq::empty()
    } else {
        concat_views(bins.drop_last()) + bins.last()@
    }
}

/// The first position in sorted keys at which a key is not below `bound`.
pub open spec fn is_lower_bound(keys: Seq<MortonKey>, bound: MortonKey, at: int) -> bool {
    &&& 0 <= at <= keys.len()
    &&& forall|i: int| 0 <= i < at ==> (#[trigger] keys[i]).morton < bound.morton
    &&& forall|i: int| at <= i < keys.len() ==> (#[trigger] keys[i]).morton >= bound.morton
}

/// Equally spaced cuts lie within the items and move to the right.
proof fn lemma_spaced_index(i: nat, len: nat, parts: nat)
    requires
        parts >= 1,
        i < parts,
        len > 0,
    ensures
        spaced_index(i, len, parts) < len,
        i + 1 < parts ==> spaced_index(i, len, parts) <= spaced_index(i + 1, len, parts),
{
    assert((i * len) / parts < len) by (nonlinear_arith)
        requires
            parts >= 1,
            i < parts,
            len > 0,
    ;
    assert((i * len) / parts <= ((i + 1) * len) / parts) by (nonlinear_arith)
        requires
            parts >= 1,
            len > 0,
    ;
}

/// The samples that a process offers of its sorted keys: `parts - 1` equally
/// spaced keys, or none where it has no keys.
pub fn select_samples(local: &Vec<MortonKey>, parts: usize) -> (r: Vec<MortonKey>)
    requires
        parts >= 1,
        local@.len() * parts <= usize::MAX,
    ensures
        r@ == picks(local@, parts as nat),
{
    let mut out: Vec<MortonKey> = Vec::new();
    let len: usize = local.len();
    if len == 0 {
        proof {
            assert(out@ =~= picks(local@, parts as nat));
        }
        return out;
    }
    let mut i: usize = 1;
    while i < parts
        invariant
            1 <= i <= parts,
            len == local@.len(),
            len > 0,
            len * parts <= usize::MAX,
            out@.len() == i - 1,
            forall|j: int|
                0 <= j < i - 1 ==> out@[j] == local@[spaced_index((j + 1) as nat, len as nat, parts as nat) as int],
        decreases parts - i,
    {
        proof {
            lemma_spaced_index(i as nat, len as nat, parts as nat);
            assert(i * len <= parts * len) by (nonlinear_arith)
                requires
                    i <= parts,
                    len >= 0,
            ;
            assert(parts * len == len * parts) by (nonlinear_arith);
        }
        let at: usize = (i * len) / parts;
        out.push(local[at]);
        i = i + 1;
    }
    proof {
        assert(out@ =~= picks(local@, parts as nat));
    }
    out
}

/// The splitters that the gathered samples of all processes give.
pub fn choose_splitters(samples: Vec<MortonKey>, parts: usize) -> (r: Vec<MortonKey>)
    requires
        parts >= 1,
        samples@.len() * parts <= usize::MAX,
    ensures
        is_splitters_of(r@, samples@, parts as nat),
        is_sorted(r@),
{
    let sorted: Vec<MortonKey> = sort_keys(samples);
    let out: Vec<MortonKey> = select_samples(&sorted, parts);
    proof {
        let s: Seq<MortonKey> = sorted@;
        assert(is_sorted(s) && s.to_multiset() == samples@.to_multiset() && out@ == picks(
            s,
            parts as nat,
        ));
        assert forall|i: int, j: int| 0 <= i < j < out@.len() implies out@[i].morton
            <= out@[j].morton by {
            lemma_picks_ordered(s, parts as nat, i, j);
        }
    }
    out
}

/// The picks from a sorted sequence are sorted.
proof fn lemma_picks_ordered(s: Seq<MortonKey>, parts: nat, i: int, j: int)
    requires
        is_sorted(s),
        parts >= 1,
        0 <= i < j < picks(s, parts).len(),
    ensures
        picks(s, parts)[i].morton <= picks(s, parts)[j].morton,
    decreases j - i,
{
    let a: nat = spaced_index((i + 1) as nat, s.len(), parts);
    let b: nat = spaced_index((i + 2) as nat, s.len(), parts);
    lemma_spaced_index((i + 1) as nat, s.len(), parts);
    lemma_spaced_index((i + 2) as nat, s.len(), parts);
    if i + 1 < j {
        lemma_picks_ordered(s, parts, i + 1, j);
    }
    if a < b {
        assert(s[a as int].morton <= s[b as int].morton);
    }
}

/// The first position in sorted keys at which a key is not below `bound`.
pub fn lower_bound(keys: &Vec<MortonKey>, bound: &MortonKey) -> (r: usize)
    requires
        is_sorted(keys@),
    ensures
        is_lower_bound(keys@, *bound, r as int),
{
    let mut lo: usize = 0;
    let mut hi: usize = keys.len();
    while lo < hi
        invariant
            lo <= hi <= keys@.len(),
            is_sorted(keys@),
            forall|i: int| 0 <= i < lo ==> (#[trigger] keys@[i]).morton < bound.morton,
            forall|i: int| hi <= i < keys@.len() ==> (#[trigger] keys@[i]).morton >= bound.morton,
        decreases hi - lo,
    {
        let mid: usize = lo + (hi - lo) / 2;
        if keys[mid].morton < bound.morton {
            proof {
                assert forall|i: int| 0 <= i < mid + 1 implies (#[trigger] keys@[i]).morton
                    < bound.morton by {
                    if i < mid {
                        assert(keys@[i].morton <= keys@[mid as int].morton);
                    }
                }
            }
            lo = mid + 1;
        } else {
            proof {
                assert forall|i: int| mid <= i < keys@.len() implies (#[trigger] keys@[i]).morton
                    >= bound.morton by {
                    if mid < i {
                        assert(keys@[mid as int].morton <= keys@[i].morton);
                    }
                }
            }
            hi = mid;
        }
    }
    lo
}

/// Where to cut sorted keys into bins, one bin for each process: the bin `b`
/// runs from the offset `b` up to the offset `b + 1` and holds the keys from
/// the splitter `b - 1` on that are below the splitter `b`.
pub fn bin_offsets(local: &Vec<MortonKey>, splitters: &Vec<MortonKey>) -> (r: Vec<usize>)
    requires
        is_sorted(local@),
        is_sorted(splitters@),
        splitters@.len() + 2 <= usize::MAX,
    ensures
        r@.len() == splitters@.len() + 2,
        r@[0] == 0,
        r@[r@.len() - 1] == local@.len(),
        forall|b: int|
            0 <= b < splitters@.len() ==> is_lower_bound(
                local@,
                #[trigger] splitters@[b],
                r@[b + 1] as int,
            ),
        forall|b: int| 0 <= b < r@.len() - 1 ==> (#[trigger] r@[b]) <= r@[b + 1],
{
    let mut out: Vec<usize> = Vec::new();
    out.push(0);
    let mut b: usize = 0;
    while b < splitters.len()
        invariant
            b <= splitters@.len(),
            is_sorted(local@),
            is_sorted(splitters@),
            out@.len() == b + 1,
            out@[0] == 0,
            forall|c: int|
                0 <= c < b ==> is_lower_bound(local@, #[trigger] splitters@[c], out@[c + 1] as int),
            forall|c: int| 0 <= c < b ==> (#[trigger] out@[c]) <= out@[c + 1],
        decreases splitters@.len() - b,
    {
        let at: usize = lower_bound(local, &splitters[b]);
        proof {
            if b > 0 {
                let previous: int = out@[b as int] as int;
                assert(is_lower_bound(local@, splitters@[b - 1], previous));
                assert(splitters@[b - 1].morton <= splitters@[b as int].morton);
                if at < previous {
                    assert(local@[at as int].morton < splitters@[b - 1].morton);
                    assert(local@[at as int].morton >= splitters@[b as int].morton);
                }
            }
        }
        out.push(at);
        b = b + 1;
    }
    proof {
        if splitters@.len() > 0 {
            assert(is_lower_bound(
                local@,
                splitters@[splitters@.len() - 1],
                out@[splitters@.len() as int] as int,
            ));
        }
    }
    out.push(local.len());
    out
}

/// The keys of received bins as one sequence in Morton order.
pub fn merge_bins(bins: &Vec<Vec<MortonKey>>) -> (r: Vec<MortonKey>)
    ensures
        is_sorted(r@),
        r@.to_multiset() == concat_views(bins@).to_multiset(),
        forall|x: MortonKey| #[trigger] r@.contains(x) <==> concat_views(bins@).contains(x),
{
    let mut all: Vec<MortonKey> = Vec::new();
    let mut b: usize = 0;
    while b < bins.len()
        invariant
            b <= bins@.len(),
            all@ == concat_views(bins@.take(b as int)),
        decreases bins@.len() - b,
    {
        let bin: &Vec<MortonKey> = &bins[b];
        let ghost before: Seq<MortonKey> = all@;
        let mut i: usize = 0;
        while i < bin.len()
            invariant
                i <= bin@.len(),
                all@ == before + bin@.take(i as int),
            decreases bin@.len() - i,
        {
            all.push(bin[i]);
            proof {
                assert(bin@.take(i + 1) =~= bin@.take(i as int).push(bin@[i as int]));
                assert(before + bin@.take(i + 1) =~= (before + bin@.take(i as int)).push(
                    bin@[i as int],
                ));
            }
            i = i + 1;
        }
        proof {
            assert(bin@.take(bin@.len() as int) =~= bin@);
            assert(bins@.take(b + 1).drop_last() =~= bins@.take(b as int));
            assert(bins@.take(b + 1).last() == bins@[b as int]);
        }
        b = b + 1;
    }
    proof {
        assert(bins@.take(bins@.len() as int) =~= bins@);
    }
    sort_keys(all)
}

/// Blocks that tile one range after the other tile the whole range in Morton
/// order: the keys of all processes, one process after the other, are a linear
/// octree and strictly sorted.
pub proof fn lemma_blocks_tile(blocks: Seq<Seq<MortonKey>>, bounds: Seq<nat>)
    requires
        bounds.len() == blocks.len() + 1,
        forall|r: int|
            0 <= r < blocks.len() ==> tiles(#[trigger] blocks[r], bounds[r], bounds[r + 1]),
    ensures
        tiles(concat(blocks), bounds[0], bounds[blocks.len() as int]),
        is_linear(concat(blocks)),
        is_strictly_sorted(concat(blocks)),
    decreases blocks.len(),
{
    if blocks.len() == 0 {
        assert(tiles(concat(blocks), bounds[0], bounds[0]));
    } else {
        let n: int = blocks.len() as int;
        let head: Seq<Seq<MortonKey>> = blocks.drop_last();
        let head_bounds: Seq<nat> = bounds.drop_last();
        assert forall|r: int| 0 <= r < head.len() implies tiles(
            #[trigger] head[r],
            head_bounds[r],
            head_bounds[r + 1],
        ) by {
            assert(head[r] == blocks[r]);
        }
        lemma_blocks_tile(head, head_bounds);
        assert(tiles(blocks[n - 1], bounds[n - 1], bounds[n]));
        lemma_tiles_concat(concat(head), blocks.last(), bounds[0], bounds[n - 1], bounds[n]);
    }
    lemma_tiles_linear(concat(blocks), bounds[0], bounds[blocks.len() as int]);
    lemma_linear_sorted(concat(blocks));
}

/// The whole cube is tiled by the blocks of the processes: the first block
/// starts the cube, each later block starts at the key that the block before it
/// reaches up to, and the last block reaches the end.
pub proof fn lemma_blocks_complete(
    blocks: Seq<Seq<MortonKey>>,
    lowers: Seq<nat>,
    nexts: Seq<Option<MortonKey>>,
)
    requires
        blocks.len() > 0,
        lowers.len() == blocks.len(),
        nexts.len() == blocks.len(),
        lowers[0] == 0,
        nexts[blocks.len() - 1].is_none(),
        forall|r: int|
            0 <= r < blocks.len() - 1 ==> (#[trigger] nexts[r]).is_some() && nexts[r].unwrap().code()
                == lowers[r + 1],
        forall|r: int|
            0 <= r < blocks.len() ==> tiles(
                #[trigger] blocks[r],
                lowers[r],
                crate::completion::block_end(nexts[r]),
            ),
    ensures
        crate::linear::is_complete(concat(blocks)),
        is_strictly_sorted(concat(blocks)),
{
    let n: int = blocks.len() as int;
    let bounds: Seq<nat> = lowers.push(crate::powers::eight_pow(16));
    assert forall|r: int| 0 <= r < blocks.len() implies tiles(
        #[trigger] blocks[r],
        bounds[r],
        bounds[r + 1],
    ) by {
        assert(bounds[r] == lowers[r]);
        if r < n - 1 {
            assert(nexts[r].is_some());
            assert(bounds[r + 1] == lowers[r + 1]);
        }
    }
    lemma_blocks_tile(blocks, bounds);
}

/// The bin `b` of keys that are cut at the splitters holds the keys from the
/// splitter `b - 1` on that are below the splitter `b`.
pub proof fn lemma_bins_respect_splitters(
    keys: Seq<MortonKey>,
    splitters: Seq<MortonKey>,
    offsets: Seq<usize>,
    b: int,
    i: int,
)
    requires
        offsets.len() == splitters.len() + 2,
        forall|c: int|
            0 <= c < splitters.len() ==> is_lower_bound(
                keys,
                #[trigger] splitters[c],
                offsets[c + 1] as int,
            ),
        0 <= b <= splitters.len(),
        offsets[b] <= i < offsets[b + 1],
        0 <= i < keys.len(),
    ensures
        b > 0 ==> splitters[b - 1].morton <= keys[i].morton,
        b < splitters.len() ==> keys[i].morton < splitters[b].morton,
{
    if b > 0 {
        assert(is_lower_bound(keys, splitters[b - 1], offsets[b] as int));
    }
    if b < splitters.len() {
        assert(is_lower_bound(keys, splitters[b], offsets[b + 1] as int));
    }
}

/// Every key of the part `r` lies from the splitter `r - 1` on and below the splitter `r`.
pub open spec fn respects_splitters(parts: Seq<Seq<MortonKey>>, splitters: Seq<MortonKey>) -> bool {
    forall|r: int, i: int|
        0 <= r < parts.len() && 0 <= i < parts[r].len() ==> (r > 0 ==> splitters[r - 1].morton <= (
        #[trigger] parts[r][i]).morton) && (r < splitters.len() ==> parts[r][i].morton
            < splitters[r].morton)
}

/// Sorted parts that respect sorted splitters are sorted as a whole: the keys of
/// all processes after the partition, one process after the other, stand in
/// Morton order.
pub proof fn lemma_partition_sorted(parts: Seq<Seq<MortonKey>>, splitters: Seq<MortonKey>)
    requires
        parts.len() == splitters.len() + 1,
        is_sorted(splitters),
        forall|r: int| 0 <= r < parts.len() ==> is_sorted(#[trigger] parts[r]),
        respects_splitters(parts, splitters),
    ensures
        is_sorted(concat(parts)),
{
    lemma_partition_prefix(parts, splitters, parts.len() as int);
    assert(parts.take(parts.len() as int) =~= parts);
}

/// The first `m` parts are sorted as a whole and lie below the splitter `m - 1`.
proof fn lemma_partition_prefix(parts: Seq<Seq<MortonKey>>, splitters: Seq<MortonKey>, m: int)
    requires
        parts.len() == splitters.len() + 1,
        is_sorted(splitters),
        forall|r: int| 0 <= r < parts.len() ==> is_sorted(#[trigger] parts[r]),
        respects_splitters(parts, splitters),
        0 <= m <= parts.len(),
    ensures
        is_sorted(concat(parts.take(m))),
        forall|i: int|
            0 <= i < concat(parts.take(m)).len() && 1 <= m <= splitters.len() ==> (
            #[trigger] concat(parts.take(m))[i]).morton < splitters[m - 1].morton,
    decreases m,
{
    if m > 0 {
        lemma_partition_prefix(parts, splitters, m - 1);
        let head: Seq<MortonKey> = concat(parts.take(m - 1));
        let last: Seq<MortonKey> = parts[m - 1];
        let whole: Seq<MortonKey> = concat(parts.take(m));
        assert(parts.take(m).drop_last() =~= parts.take(m - 1));
        assert(parts.take(m).last() == last);
        assert(whole == head + last);
        assert forall|i: int, j: int| 0 <= i < j < whole.len() implies whole[i].morton
            <= whole[j].morton by {
            if j < head.len() {
            } else if i >= head.len() {
                assert(whole[i] == last[i - head.len()]);
                assert(whole[j] == last[j - head.len()]);
            } else {
                assert(whole[i] == head[i]);
                assert(whole[j] == last[j - head.len()]);
                assert(m - 1 >= 1);
                assert(head[i].morton < splitters[m - 2].morton);
                assert(splitters[m - 2].morton <= parts[m - 1][j - head.len()].morton);
            }
        }
        assert forall|i: int| 0 <= i < whole.len() && 1 <= m <= splitters.len() implies (
        #[trigger] whole[i]).morton < splitters[m - 1].morton by {
            if i < head.len() {
                assert(whole[i] == head[i]);
                assert(m - 1 >= 1);
                assert(head[i].morton < splitters[m - 2].morton);
                assert(splitters[m - 2].morton <= splitters[m - 1].morton);
            } else {
                assert(whole[i] == last[i - head.len()]);
                assert(parts[m - 1][i - head.len()].morton < splitters[m - 1].morton);
            }
        }
    }
}

} // verus!
