//! The build of a distributed tree, as the decisions of one process.
//!
//! The processes build the tree together: they reduce the domain, sort and
//! partition their points, complete their blocks and balance them, and at
//! every stage they exchange something. This module neither sends nor receives.
//! It holds the state of one process and decides, for each thing that arrives,
//! what the process does with it and what it has to send next. The caller
//! carries out the exchange and hands back what arrived. All processes have to
//! go through the same stages in the same order.

use vstd::prelude::*;
use crate::morton::{lemma_width_positive, MortonKey};
use crate::linear::{
    all_wf, covered_by, is_complete, is_linear, is_sorted, is_strictly_sorted, tiles,
};
use crate::completion::{all_marked, block_end, complete_block, holds_first};
use crate::balance::{
    balance_block, block_seeds, block_settled, in_working_set, is_balanced, is_block_pass,
    BlockPass,
};
use crate::completion::inside;
use crate::linear::{is_finest_in, linearized};
use crate::partition::{
    bin_offsets, choose_splitters, concat, is_lower_bound, is_splitters_of, lemma_blocks_tile,
    picks, select_samples,
};
use crate::tree::{
    all_points_wf, keys_of, point_keys, points_sorted, sort_points, Point,
};

verus! {

/// How far the build of one process has come.
#[derive(Clone, Copy, Debug, PartialEq, Eq, Structural)]
pub enum Phase {
    /// Nothing has happened yet.
    Init,
    /// The domain of all points is known.
    DomainReduced,
    /// The points have their keys.
    Encoded,
    /// The points stand in their order.
    LocallySorted,
    /// The process holds the points of its block.
    Partitioned,
    /// The block is a tiling of its range.
    Completed,
    /// The block is in the rounds of balancing.
    Balanced,
    /// The tree is built.
    Ready,
}

/// What has arrived at a process.
pub enum Event {
    /// The domain has been reduced over all processes.
    DomainReduced,
    /// The points of the process have been encoded.
    Encoded(Vec<Point>),
    /// The samples of all processes have been gathered.
    Samples(Vec<MortonKey>),
    /// The points that the other processes had for this one, and its own, have arrived.
    Exchanged(Vec<Point>),
    /// The last key of the process before and the first key of the process after
    /// have arrived; the first process has none before it, the last none after it.
    Bounds(Option<MortonKey>, Option<MortonKey>),
    /// The keys that the processes have handed out in a round of balancing have arrived.
    Boundary(Vec<MortonKey>),
    /// It is known whether a round of balancing has changed the block of any process.
    Changed(bool),
}

/// What a process has to do next.
pub enum Action {
    /// Encode the points in the reduced domain.
    Encode,
    /// Gather the samples of all processes.
    GatherSamples(Vec<MortonKey>),
    /// Send the points between each two offsets to the process of that bin.
    Exchange(Vec<usize>),
    /// Send the first key to the process before and the last key to the process
    /// after, and receive theirs.
    ExchangeBounds(MortonKey, MortonKey),
    /// Hand these keys to the processes in whose range they lie, and receive theirs.
    ExchangeBoundary(Vec<MortonKey>),
    /// Find out whether the block of any process has changed.
    ReduceChanged(bool),
    /// Nothing: the tree is built.
    Done,
    /// Stop: what arrived does not fit the stage, or cannot be worked with.
    Abort,
}

/// The state of the build of one process.
pub struct Build {
    /// How far the build has come.
    pub phase: Phase,
    /// The number of this process.
    pub rank: usize,
    /// The number of processes.
    pub size: usize,
    /// Whether the tree is to be balanced.
    pub balance: bool,
    /// Whether the bins have been cut and the points are under way.
    pub cut: bool,
    /// The points of the process.
    pub points: Vec<Point>,
    /// The keys of the points, and from the completion on the leaves of the block.
    pub keys: Vec<MortonKey>,
    /// The first code of the block.
    pub lower: u64,
    /// The first key of the next block.
    pub next: Option<MortonKey>,
    /// Whether the round of balancing has changed the block so far.
    pub changed: bool,
    /// The keys that the block had received when a pass last left it as it is.
    pub settled_for: Ghost<Seq<MortonKey>>,
}

/// The tree of one process as a part of the tree of all.
pub struct DistributedTree {
    /// The points of the process, in their order.
    pub points: Vec<Point>,
    /// The leaves of the block of the process, in Morton order.
    pub keys: Vec<MortonKey>,
    /// Whether the tree of all processes is 2:1 balanced.
    pub balanced: bool,
}

impl Build {
    /// What the state holds at its stage.
    pub open spec fn wf(self) -> bool {
        &&& self.size >= 1
        &&& self.rank < self.size
        &&& (self.phase == Phase::LocallySorted || self.phase == Phase::Partitioned) ==> {
            &&& all_points_wf(self.points@)
            &&& points_sorted(self.points@)
            &&& self.keys@ == keys_of(self.points@)
            &&& is_sorted(self.keys@)
            &&& all_wf(self.keys@)
            &&& forall|i: int|
                0 <= i < self.keys@.len() ==> (#[trigger] self.keys@[i]).level_spec() == 16
        }
        &&& (self.phase == Phase::Balanced || self.phase == Phase::Ready) ==> {
            &&& all_points_wf(self.points@)
            &&& points_sorted(self.points@)
            &&& self.keys@.len() > 0
            &&& tiles(self.keys@, self.lower as nat, block_end(self.next))
            &&& self.next.is_some() ==> self.next.unwrap().wf()
            &&& self.rank == 0 ==> self.lower == 0
            &&& (self.rank + 1 == self.size) == self.next.is_none()
            &&& points_inside(self.points@, self.lower as nat, block_end(self.next))
            &&& (self.phase == Phase::Balanced ==> self.balance)
            &&& (self.phase == Phase::Ready ==> !self.changed)
            &&& (self.balance && !self.changed) ==> block_settled(
                self.keys@,
                self.lower as nat,
                block_end(self.next),
                block_seeds(self.keys@, self.settled_for@),
            )
        }
    }

    /// The state of a process before anything has happened.
    pub fn new(rank: usize, size: usize, balance: bool) -> (r: Build)
        requires
            rank < size,
        ensures
            r.wf(),
            r.phase == Phase::Init,
            r.rank == rank,
            r.size == size,
            r.balance == balance,
    {
        Build {
            phase: Phase::Init,
            rank,
            size,
            balance,
            cut: false,
            points: Vec::new(),
            keys: Vec::new(),
            lower: 0,
            next: None,
            changed: false,
            settled_for: Ghost(Seq::empty()),
        }
    }

    /// The encoded points have arrived: sorts them and offers samples of their keys.
    fn on_encoded(self, points: Vec<Point>) -> (r: (Build, Action))
        requires
            self.wf(),
            self.phase == Phase::DomainReduced,
        ensures
            r.0.wf(),
            after_encoded(self, points@, r.0, r.1),
    {
        if !all_valid_points(&points) {
            return (self, Action::Abort);
        }
        match points.len().checked_mul(self.size) {
            None => {
                return (self, Action::Abort);
            },
            Some(_) => {},
        }
        let sorted: Vec<Point> = sort_points(points);
        let keys: Vec<MortonKey> = point_keys(&sorted);
        let samples: Vec<MortonKey> = select_samples(&keys, self.size);
        let next: Build = Build {
            phase: Phase::LocallySorted,
            rank: self.rank,
            size: self.size,
            balance: self.balance,
            cut: false,
            points: sorted,
            keys,
            lower: 0,
            next: None,
            changed: false,
            settled_for: Ghost(Seq::empty()),
        };
        (next, Action::GatherSamples(samples))
    }

    /// The samples of all processes have arrived: chooses the splitters and cuts
    /// the points into bins.
    fn on_samples(self, samples: Vec<MortonKey>) -> (r: (Build, Action))
        requires
            self.wf(),
            self.phase == Phase::LocallySorted,
            !self.cut,
        ensures
            r.0.wf(),
            after_samples(self, samples@, r.0, r.1),
    {
        if self.size > usize::MAX - 2 {
            return (self, Action::Abort);
        }
        match samples.len().checked_mul(self.size) {
            None => {
                return (self, Action::Abort);
            },
            Some(_) => {},
        }
        let splitters: Vec<MortonKey> = choose_splitters(samples, self.size);
        proof {
            let s: Seq<MortonKey> = choose|s: Seq<MortonKey>| #[trigger]
                is_sorted(s) && s.to_multiset() == samples@.to_multiset() && splitters@ == picks(
                    s,
                    self.size as nat,
                );
            assert(splitters@.len() <= self.size);
        }
        let offsets: Vec<usize> = bin_offsets(&self.keys, &splitters);
        let next: Build = Build {
            phase: Phase::LocallySorted,
            rank: self.rank,
            size: self.size,
            balance: self.balance,
            cut: true,
            points: self.points,
            keys: self.keys,
            lower: 0,
            next: None,
            changed: false,
            settled_for: Ghost(Seq::empty()),
        };
        (next, Action::Exchange(offsets))
    }

    /// The points of the block have arrived: sorts them and offers the first key.
    fn on_exchanged(self, points: Vec<Point>) -> (r: (Build, Action))
        requires
            self.wf(),
            self.phase == Phase::LocallySorted,
            self.cut,
        ensures
            r.0.wf(),
            after_exchanged(self, points@, r.0, r.1),
    {
        if points.len() == 0 || !all_valid_points(&points) {
            return (self, Action::Abort);
        }
        let sorted: Vec<Point> = sort_points(points);
        let keys: Vec<MortonKey> = point_keys(&sorted);
        let first: MortonKey = keys[0];
        let last: MortonKey = keys[keys.len() - 1];
        let next: Build = Build {
            phase: Phase::Partitioned,
            rank: self.rank,
            size: self.size,
            balance: self.balance,
            cut: false,
            points: sorted,
            keys,
            lower: 0,
            next: None,
            changed: false,
            settled_for: Ghost(Seq::empty()),
        };
        (next, Action::ExchangeBounds(first, last))
    }

    /// The keys of the neighbours have arrived: completes the block up to the
    /// first key of the process after, and runs a first pass of balancing over
    /// it if the tree is to be balanced.
    fn on_bounds(self, before: Option<MortonKey>, bound: Option<MortonKey>) -> (r: (
        Build,
        Action,
    ))
        requires
            self.wf(),
            self.phase == Phase::Partitioned,
        ensures
            r.0.wf(),
            after_bounds(self, before, bound, r.0, r.1),
    {
        let ghost pre: Build = self;
        if !neighbors_fit(&self.keys, self.rank, self.size, before, bound) {
            return (self, Action::Abort);
        }
        let lower: u64 = if self.rank == 0 {
            0
        } else {
            self.keys[0].position()
        };
        let tree: Vec<MortonKey> = complete_own_block(&self.keys, lower, bound);
        proof {
            assert forall|p: int| 0 <= p < self.points@.len() implies inside(
                (#[trigger] self.points@[p]).morton_key,
                lower as nat,
                block_end(bound),
            ) by {
                assert(self.keys@[p] == self.points@[p].morton_key);
            }
        }
        if !self.balance {
            let next: Build = Build {
                phase: Phase::Ready,
                rank: self.rank,
                size: self.size,
                balance: false,
                cut: false,
                points: self.points,
                keys: tree,
                lower,
                next: bound,
                changed: false,
                settled_for: Ghost(Seq::empty()),
            };
            return (next, Action::Done);
        }
        let pass: BlockPass = first_pass(&tree, lower, bound);
        let ghost completed: Seq<MortonKey> = tree@;
        let next: Build = Build {
            phase: Phase::Balanced,
            rank: self.rank,
            size: self.size,
            balance: true,
            cut: false,
            points: self.points,
            keys: pass.tree,
            lower,
            next: bound,
            changed: pass.changed,
            settled_for: Ghost(Seq::empty()),
        };
        let action: Action = Action::ExchangeBoundary(pass.outgoing);
        proof {
            assert(is_block_completion(completed, pre.keys@, lower as nat, bound) && is_block_pass(
                next.keys@,
                completed,
                Seq::empty(),
                lower as nat,
                bound,
            ) && next.changed == (next.keys@ != completed) && action_hands_out(
                action,
                completed,
                lower as nat,
                bound,
            ));
            assert(fits_between(pre.keys@, pre.rank, pre.size, before, bound));
            assert(lower == block_lower(pre.rank, pre.keys@));
            assert(same_process(pre, next));
            assert(next.points@ == pre.points@);
            assert(tiles(next.keys@, lower as nat, block_end(bound)));
            assert(after_bounds(pre, before, bound, next, action));
        }
        (next, action)
    }

    /// The keys that the processes have handed out have arrived: runs a pass of
    /// balancing with them and says whether the round has changed the block.
    fn on_boundary(self, received: Vec<MortonKey>) -> (r: (Build, Action))
        requires
            self.wf(),
            self.phase == Phase::Balanced,
        ensures
            r.0.wf(),
            after_boundary(self, received@, r.0, r.1),
    {
        if !all_valid_keys(&received) {
            return (self, Action::Abort);
        }
        let pass: BlockPass = balance_block(&self.keys, &received, self.lower, self.next);
        let changed: bool = self.changed || pass.changed;
        proof {
            if pass.tree@.len() == 0 {
                crate::linear::lemma_tiles_bounds(
                    self.keys@,
                    self.lower as nat,
                    block_end(self.next),
                    0,
                );
                lemma_width_positive(self.keys@[0]);
            }
        }
        let next: Build = Build {
            phase: Phase::Balanced,
            rank: self.rank,
            size: self.size,
            balance: self.balance,
            cut: false,
            points: self.points,
            keys: pass.tree,
            lower: self.lower,
            next: self.next,
            changed,
            settled_for: Ghost(received@),
        };
        (next, Action::ReduceChanged(changed))
    }

    /// It is known whether the round has changed any block: starts another round
    /// if it has, and is done if it has not.
    fn on_changed(self, any: bool) -> (r: (Build, Action))
        requires
            self.wf(),
            self.phase == Phase::Balanced,
        ensures
            r.0.wf(),
            after_changed(self, any, r.0, r.1),
    {
        if !any {
            if self.changed {
                return (self, Action::Abort);
            }
            let next: Build = Build {
                phase: Phase::Ready,
                rank: self.rank,
                size: self.size,
                balance: self.balance,
                cut: false,
                points: self.points,
                keys: self.keys,
                lower: self.lower,
                next: self.next,
                changed: false,
                settled_for: self.settled_for,
            };
            return (next, Action::Done);
        }
        let pass: BlockPass = first_pass(&self.keys, self.lower, self.next);
        let next: Build = Build {
            phase: Phase::Balanced,
            rank: self.rank,
            size: self.size,
            balance: self.balance,
            cut: false,
            points: self.points,
            keys: pass.tree,
            lower: self.lower,
            next: self.next,
            changed: pass.changed,
            settled_for: Ghost(Seq::empty()),
        };
        (next, Action::ExchangeBoundary(pass.outgoing))
    }

    /// What the process does with what has arrived: its next state, and what it
    /// has to do next. What does not fit the stage leaves the state as it is and
    /// stops the build.
    pub fn step(self, event: Event) -> (r: (Build, Action))
        requires
            self.wf(),
        ensures
            r.0.wf(),
            transition(self, event, r.0, r.1),
    {
        match event {
            Event::DomainReduced => {
                if self.phase == Phase::Init {
                    let next: Build = Build {
                        phase: Phase::DomainReduced,
                        rank: self.rank,
                        size: self.size,
                        balance: self.balance,
                        cut: false,
                        points: self.points,
                        keys: self.keys,
                        lower: self.lower,
                        next: self.next,
                        changed: false,
                        settled_for: Ghost(Seq::empty()),
                    };
                    (next, Action::Encode)
                } else {
                    (self, Action::Abort)
                }
            },
            Event::Encoded(points) => {
                if self.phase == Phase::DomainReduced {
                    self.on_encoded(points)
                } else {
                    (self, Action::Abort)
                }
            },
            Event::Samples(samples) => {
                if self.phase == Phase::LocallySorted && !self.cut {
                    self.on_samples(samples)
                } else {
                    (self, Action::Abort)
                }
            },
            Event::Exchanged(points) => {
                if self.phase == Phase::LocallySorted && self.cut {
                    self.on_exchanged(points)
                } else {
                    (self, Action::Abort)
                }
            },
            Event::Bounds(before, bound) => {
                if self.phase == Phase::Partitioned {
                    self.on_bounds(before, bound)
                } else {
                    (self, Action::Abort)
                }
            },
            Event::Boundary(received) => {
                if self.phase == Phase::Balanced {
                    self.on_boundary(received)
                } else {
                    (self, Action::Abort)
                }
            },
            Event::Changed(any) => {
                if self.phase == Phase::Balanced {
                    self.on_changed(any)
                } else {
                    (self, Action::Abort)
                }
            },
        }
    }

    /// The tree that the build has made.
    pub fn finish(self) -> (r: DistributedTree)
        requires
            self.wf(),
            self.phase == Phase::Ready,
        ensures
            r.points@ == self.points@,
            r.keys@ == self.keys@,
            r.balanced == self.balance,
            tiles(r.keys@, self.lower as nat, block_end(self.next)),
            is_linear(r.keys@),
            all_points_wf(r.points@),
            points_sorted(r.points@),
            forall|p: int|
                0 <= p < r.points@.len() ==> covered_by((#[trigger] r.points@[p]).morton_key, r.keys@),
            self.rank == 0 ==> self.lower == 0,
            (self.rank + 1 == self.size) == self.next.is_none(),
            self.balance ==> block_settled(
                r.keys@,
                self.lower as nat,
                block_end(self.next),
                block_seeds(r.keys@, self.settled_for@),
            ),
            self.size == 1 ==> is_complete(r.keys@),
            self.size == 1 && self.balance ==> is_balanced(r.keys@),
    {
        proof {
            if self.size == 1 && self.balance {
                crate::balance::lemma_single_block_balanced(self.keys@, self.settled_for@);
            }
            crate::linear::lemma_tiles_linear(
                self.keys@,
                self.lower as nat,
                block_end(self.next),
            );
            assert forall|p: int| 0 <= p < self.points@.len() implies covered_by(
                (#[trigger] self.points@[p]).morton_key,
                self.keys@,
            ) by {
                let point: Point = self.points@[p];
                assert(point.wf());
                crate::morton::lemma_key_at(
                    point.anchor[0] as nat,
                    point.anchor[1] as nat,
                    point.anchor[2] as nat,
                    16,
                );
                lemma_point_has_leaf(
                    self.keys@,
                    self.lower as nat,
                    block_end(self.next),
                    point.morton_key,
                );
            }
        }
        DistributedTree { points: self.points, keys: self.keys, balanced: self.balance }
    }
}

/// Whether the blocks of the neighbours lie on either side of the keys.
fn neighbors_fit(
    keys: &Vec<MortonKey>,
    rank: usize,
    size: usize,
    before: Option<MortonKey>,
    bound: Option<MortonKey>,
) -> (r: bool)
    requires
        all_wf(keys@),
        rank < size,
    ensures
        r == fits_between(keys@, rank, size, before, bound),
{
    if keys.len() == 0 {
        return false;
    }
    if (rank == 0) != before.is_none() || (rank + 1 == size) != bound.is_none() {
        return false;
    }
    match before {
        Some(p) => {
            if !p.is_valid() || p.position_end() > keys[0].position() {
                return false;
            }
        },
        None => {},
    }
    match bound {
        Some(n) => {
            if !n.is_valid() || keys[keys.len() - 1].position_end() > n.position() {
                return false;
            }
        },
        None => {},
    }
    true
}

/// The completion of the block of sorted keys of the deepest level, from `lower`
/// on up to the key `bound`.
fn complete_own_block(seeds: &Vec<MortonKey>, lower: u64, bound: Option<MortonKey>) -> (r: Vec<
    MortonKey,
>)
    requires
        seeds@.len() > 0,
        all_wf(seeds@),
        is_sorted(seeds@),
        forall|i: int| 0 <= i < seeds@.len() ==> (#[trigger] seeds@[i]).level_spec() == 16,
        lower <= seeds@[0].code(),
        bound.is_some() ==> bound.unwrap().wf() && seeds@[seeds@.len() - 1].end()
            <= bound.unwrap().code(),
    ensures
        r@.len() > 0,
        is_block_completion(r@, seeds@, lower as nat, bound),
        forall|i: int|
            0 <= i < seeds@.len() ==> inside(#[trigger] seeds@[i], lower as nat, block_end(bound)),
{
    let ghost last: MortonKey = seeds@[seeds@.len() - 1];
    proof {
        assert forall|i: int| 0 <= i < seeds@.len() implies lower <= (#[trigger] seeds@[i]).code() by {
            if i > 0 {
                crate::linear::lemma_sorted_pair(seeds@[0], seeds@[i]);
            }
        }
        if bound.is_some() {
            assert forall|i: int| 0 <= i < seeds@.len() implies (#[trigger] seeds@[i]).end()
                <= bound.unwrap().code() by {
                if i < seeds@.len() - 1 {
                    crate::linear::lemma_sorted_pair(seeds@[i], last);
                    assert(seeds@[i].level_spec() == 16);
                    assert(last.level_spec() == 16);
                }
            }
        }
    }
    let tree: Vec<MortonKey> = complete_block(seeds, lower, bound);
    proof {
        crate::powers::lemma_pow_values();
        assert forall|i: int| 0 <= i < seeds@.len() implies inside(
            #[trigger] seeds@[i],
            lower as nat,
            block_end(bound),
        ) by {
            crate::morton::lemma_end_bound(seeds@[i]);
        }
        if tree@.len() == 0 {
            lemma_width_positive(seeds@[0]);
            crate::morton::lemma_end_bound(seeds@[0]);
            if bound.is_some() {
                assert(seeds@[0].end() <= bound.unwrap().code());
            }
        }
    }
    tree
}

/// A pass of balancing over a block to which nothing has been sent.
fn first_pass(tree: &Vec<MortonKey>, lower: u64, bound: Option<MortonKey>) -> (r: BlockPass)
    requires
        tree@.len() > 0,
        tiles(tree@, lower as nat, block_end(bound)),
        bound.is_some() ==> bound.unwrap().wf(),
    ensures
        r.tree@.len() > 0,
        tiles(r.tree@, lower as nat, block_end(bound)),
        is_block_pass(r.tree@, tree@, Seq::empty(), lower as nat, bound),
        hands_out(r.outgoing@, tree@, lower as nat, bound),
        r.changed == (r.tree@ != tree@),
        block_settled(
            r.tree@,
            lower as nat,
            block_end(bound),
            block_seeds(tree@, Seq::empty()),
        ),
{
    let empty: Vec<MortonKey> = Vec::new();
    let pass: BlockPass = balance_block(tree, &empty, lower, bound);
    proof {
        if pass.tree@.len() == 0 {
            crate::linear::lemma_tiles_bounds(tree@, lower as nat, block_end(bound), 0);
            lemma_width_positive(tree@[0]);
        }
    }
    pass
}

/// Whether every point lies on the grid and has the key of its place.
pub fn all_valid_points(points: &Vec<Point>) -> (r: bool)
    ensures
        r == all_points_wf(points@),
{
    let mut i: usize = 0;
    while i < points.len()
        invariant
            i <= points@.len(),
            forall|j: int| 0 <= j < i ==> (#[trigger] points@[j]).wf(),
        decreases points@.len() - i,
    {
        if !points[i].is_valid() {
            return false;
        }
        i = i + 1;
    }
    true
}

/// Whether every key names a cell.
pub fn all_valid_keys(keys: &Vec<MortonKey>) -> (r: bool)
    ensures
        r == all_wf(keys@),
{
    let mut i: usize = 0;
    while i < keys.len()
        invariant
            i <= keys@.len(),
            forall|j: int| 0 <= j < i ==> (#[trigger] keys@[j]).wf(),
        decreases keys@.len() - i,
    {
        if !keys[i].is_valid() {
            return false;
        }
        i = i + 1;
    }
    true
}

/// The key of every point lies within the codes from `lo` up to `hi`.
pub open spec fn points_inside(points: Seq<Point>, lo: nat, hi: nat) -> bool {
    forall|p: int| 0 <= p < points.len() ==> inside((#[trigger] points[p]).morton_key, lo, hi)
}

/// In a tiling of a range every deepest cell within the range lies in a leaf.
pub proof fn lemma_point_has_leaf(tree: Seq<MortonKey>, lo: nat, hi: nat, key: MortonKey)
    requires
        tiles(tree, lo, hi),
        key.wf(),
        key.level_spec() == 16,
        inside(key, lo, hi),
    ensures
        covered_by(key, tree),
{
    lemma_width_positive(key);
    let i: int = crate::linear::lemma_tiles_locate(tree, lo, hi, key.code());
    assert(crate::powers::eight_pow(0) == 1);
    assert(tree[i].covers(key));
}

/// What a build that has come to its end holds of its block: the leaves tile
/// the range of the block, the first block starts the cube and only the last
/// has no block after it, and the points are valid and lie in the range.
pub open spec fn finished_block(b: Build) -> bool {
    &&& tiles(b.keys@, b.lower as nat, block_end(b.next))
    &&& b.rank == 0 ==> b.lower == 0
    &&& (b.rank + 1 == b.size) == b.next.is_none()
    &&& all_points_wf(b.points@)
    &&& points_inside(b.points@, b.lower as nat, block_end(b.next))
}

/// A build that has come to its end holds a finished block.
pub proof fn lemma_ready_is_finished(b: Build)
    requires
        b.wf(),
        b.phase == Phase::Ready,
    ensures
        finished_block(b),
        b.balance ==> block_settled(
            b.keys@,
            b.lower as nat,
            block_end(b.next),
            block_seeds(b.keys@, b.settled_for@),
        ),
{
}

/// The builds of all processes have come to their end together: the block at
/// `r` is that of the process `r`, and every process but the last reaches up to
/// where the process after it starts, which is so where every process was
/// handed the first key of the process after it.
pub open spec fn built_together(
    blocks: Seq<Seq<MortonKey>>,
    bounds: Seq<nat>,
    builds: Seq<Build>,
) -> bool {
    &&& builds.len() > 0
    &&& blocks.len() == builds.len()
    &&& bounds.len() == builds.len() + 1
    &&& bounds[builds.len() as int] == crate::powers::eight_pow(16)
    &&& forall|r: int|
        0 <= r < builds.len() ==> finished_block(#[trigger] builds[r]) && builds[r].rank == r
            && builds[r].size == builds.len() && blocks[r] == builds[r].keys@ && bounds[r]
            == builds[r].lower && block_end(builds[r].next) == bounds[r + 1]
}

/// Each block of builds that have come to their end together tiles the range
/// between its bounds.
proof fn lemma_block_tiles(
    blocks: Seq<Seq<MortonKey>>,
    bounds: Seq<nat>,
    builds: Seq<Build>,
    r: int,
)
    requires
        built_together(blocks, bounds, builds),
        0 <= r < builds.len(),
    ensures
        tiles(blocks[r], bounds[r], bounds[r + 1]),
        builds[r].lower == bounds[r],
        block_end(builds[r].next) == bounds[r + 1],
        r == 0 ==> bounds[0] == 0,
{
    assert(finished_block(builds[r]));
}

/// The blocks of builds that have come to their end together tile the cube: the
/// keys of all processes, one process after the other, are a complete linear
/// octree and strictly sorted.
pub proof fn lemma_builds_complete(
    blocks: Seq<Seq<MortonKey>>,
    bounds: Seq<nat>,
    builds: Seq<Build>,
)
    requires
        built_together(blocks, bounds, builds),
    ensures
        is_complete(concat(blocks)),
        is_linear(concat(blocks)),
        is_strictly_sorted(concat(blocks)),
{
    assert forall|r: int| 0 <= r < blocks.len() implies tiles(
        #[trigger] blocks[r],
        bounds[r],
        bounds[r + 1],
    ) by {
        lemma_block_tiles(blocks, bounds, builds, r);
    }
    lemma_block_tiles(blocks, bounds, builds, 0);
    lemma_blocks_tile(blocks, bounds);
}

/// Every point of every process lies in a leaf of the tree of all processes,
/// and in no other leaf of it.
pub proof fn lemma_builds_hold_points(
    blocks: Seq<Seq<MortonKey>>,
    bounds: Seq<nat>,
    builds: Seq<Build>,
    r: int,
    p: int,
) -> (i: int)
    requires
        built_together(blocks, bounds, builds),
        0 <= r < builds.len(),
        0 <= p < builds[r].points@.len(),
    ensures
        0 <= i < concat(blocks).len(),
        concat(blocks)[i].covers(builds[r].points@[p].morton_key),
        forall|j: int|
            0 <= j < concat(blocks).len() && (#[trigger] concat(blocks)[j]).covers(
                builds[r].points@[p].morton_key,
            ) ==> j == i,
{
    lemma_builds_complete(blocks, bounds, builds);
    let point: Point = builds[r].points@[p];
    assert(finished_block(builds[r]));
    assert(point.wf());
    crate::morton::lemma_key_at(
        point.anchor[0] as nat,
        point.anchor[1] as nat,
        point.anchor[2] as nat,
        16,
    );
    crate::linear::lemma_complete_covers_once(concat(blocks), point.morton_key)
}

/// The blocks of builds that have come to their end together in balance make a
/// balanced tree, where every process had received, when its block was last
/// left as it is, the keys that the other processes handed out.
pub proof fn lemma_builds_balanced(
    blocks: Seq<Seq<MortonKey>>,
    bounds: Seq<nat>,
    builds: Seq<Build>,
    received: Seq<MortonKey>,
)
    requires
        built_together(blocks, bounds, builds),
        forall|r: int|
            0 <= r < builds.len() ==> block_settled(
                (#[trigger] builds[r]).keys@,
                builds[r].lower as nat,
                block_end(builds[r].next),
                block_seeds(builds[r].keys@, received),
            ),
        forall|r: int, x: MortonKey|
            0 <= r < builds.len() && #[trigger] in_working_set(x, builds[r].keys@) && !inside(
                x,
                builds[r].lower as nat,
                block_end(builds[r].next),
            ) ==> received.contains(x),
    ensures
        is_balanced(concat(blocks)),
{
    assert forall|r: int| 0 <= r < blocks.len() implies tiles(
        #[trigger] blocks[r],
        bounds[r],
        bounds[r + 1],
    ) by {
        lemma_block_tiles(blocks, bounds, builds, r);
    }
    assert forall|r: int| 0 <= r < blocks.len() implies block_settled(
        #[trigger] blocks[r],
        bounds[r],
        bounds[r + 1],
        block_seeds(blocks[r], received),
    ) by {
        lemma_block_tiles(blocks, bounds, builds, r);
        assert(block_settled(
            builds[r].keys@,
            builds[r].lower as nat,
            block_end(builds[r].next),
            block_seeds(builds[r].keys@, received),
        ));
    }
    assert forall|r: int, x: MortonKey|
        0 <= r < blocks.len() && #[trigger] in_working_set(x, blocks[r]) && !inside(
            x,
            bounds[r],
            bounds[r + 1],
        ) implies received.contains(x) by {
        lemma_block_tiles(blocks, bounds, builds, r);
        assert(in_working_set(x, builds[r].keys@));
    }
    crate::balance::lemma_settled_round_balanced(blocks, bounds, received);
}

/// The keys of the processes and the blocks that they have completed around
/// them fit together: the keys of each process lie in its range, and every
/// process but the last was handed the first key of the process after it.
pub open spec fn completed_together(
    blocks: Seq<Seq<MortonKey>>,
    seeds: Seq<Seq<MortonKey>>,
    bounds: Seq<nat>,
    nexts: Seq<Option<MortonKey>>,
) -> bool {
    &&& blocks.len() > 0
    &&& seeds.len() == blocks.len()
    &&& nexts.len() == blocks.len()
    &&& bounds.len() == blocks.len() + 1
    &&& bounds[0] == 0
    &&& nexts[blocks.len() - 1].is_none()
    &&& forall|r: int|
        0 <= r < blocks.len() ==> (#[trigger] seeds[r]).len() > 0 && all_wf(seeds[r]) && is_sorted(
            seeds[r],
        ) && is_block_completion(blocks[r], seeds[r], bounds[r], nexts[r]) && block_end(nexts[r])
            == bounds[r + 1]
    &&& forall|r: int|
        0 <= r < blocks.len() - 1 ==> (#[trigger] nexts[r]) == Some(linearized(seeds[r + 1])[0])
    &&& forall|r: int, i: int|
        0 <= r < blocks.len() && 0 <= i < seeds[r].len() ==> inside(
            #[trigger] seeds[r][i],
            bounds[r],
            bounds[r + 1],
        )
}

/// A key that linearizing leaves of the keys of one process is left of the keys
/// of all processes too.
proof fn lemma_kept_among_all(
    blocks: Seq<Seq<MortonKey>>,
    seeds: Seq<Seq<MortonKey>>,
    bounds: Seq<nat>,
    nexts: Seq<Option<MortonKey>>,
    r: int,
    x: MortonKey,
)
    requires
        completed_together(blocks, seeds, bounds, nexts),
        all_wf(concat(seeds)),
        is_sorted(concat(seeds)),
        0 <= r < blocks.len(),
        linearized(seeds[r]).contains(x),
    ensures
        linearized(concat(seeds)).contains(x),
{
    let all: Seq<MortonKey> = concat(seeds);
    crate::linear::lemma_linearized_members(all);
    crate::linear::lemma_linearized_members(seeds[r]);
    assert(is_finest_in(x, seeds[r]));
    let at: int = choose|at: int| 0 <= at < seeds[r].len() && seeds[r][at] == x;
    let j: int = crate::balance::lemma_concat_holds(seeds, r, at);
    assert(all.contains(x));
    assert forall|b: int| 0 <= b < all.len() && x.covers(#[trigger] all[b]) implies all[b] == x by {
        let from: (int, int) = crate::balance::lemma_concat_member(seeds, b);
        let y: MortonKey = seeds[from.0][from.1];
        if from.0 == r {
            assert(x.covers(seeds[r][from.1]));
        } else {
            assert(inside(seeds[r][at], bounds[r], bounds[r + 1]));
            assert(inside(y, bounds[from.0], bounds[from.0 + 1]));
            lemma_width_positive(y);
            lemma_ranges_ordered(blocks, seeds, bounds, nexts, r, from.0);
            lemma_ranges_ordered(blocks, seeds, bounds, nexts, from.0, r);
            assert(false);
        }
    }
    assert(is_finest_in(x, all));
}

/// The ranges of the processes follow each other.
proof fn lemma_ranges_ordered(
    blocks: Seq<Seq<MortonKey>>,
    seeds: Seq<Seq<MortonKey>>,
    bounds: Seq<nat>,
    nexts: Seq<Option<MortonKey>>,
    a: int,
    b: int,
)
    requires
        completed_together(blocks, seeds, bounds, nexts),
        0 <= a < blocks.len(),
        0 <= b < blocks.len(),
    ensures
        a < b ==> bounds[a + 1] <= bounds[b],
{
    assert forall|r: int| 0 <= r < blocks.len() implies tiles(
        #[trigger] blocks[r],
        bounds[r],
        bounds[r + 1],
    ) by {
        assert(is_block_completion(blocks[r], seeds[r], bounds[r], nexts[r]));
    }
    crate::balance::lemma_bounds_ordered(blocks, bounds, a, b);
}

/// A key of a block is marked among the keys of all processes.
proof fn lemma_marked_among_all(
    blocks: Seq<Seq<MortonKey>>,
    seeds: Seq<Seq<MortonKey>>,
    bounds: Seq<nat>,
    nexts: Seq<Option<MortonKey>>,
    r: int,
    i: int,
)
    requires
        completed_together(blocks, seeds, bounds, nexts),
        all_wf(concat(seeds)),
        is_sorted(concat(seeds)),
        0 <= r < blocks.len(),
        0 <= i < blocks[r].len(),
    ensures
        linearized(concat(seeds)).contains(blocks[r][i]) || crate::completion::is_filler(
            blocks[r][i],
            linearized(concat(seeds)),
            0,
            None,
        ),
{
    let e: MortonKey = blocks[r][i];
    let own: Seq<MortonKey> = linearized(seeds[r]);
    let all: Seq<MortonKey> = linearized(concat(seeds));
    assert(is_block_completion(blocks[r], seeds[r], bounds[r], nexts[r]));
    crate::linear::lemma_linearized_linear(seeds[r]);
    if own.contains(e) {
        lemma_kept_among_all(blocks, seeds, bounds, nexts, r, e);
    } else {
        assert(crate::completion::is_filler(e, own, bounds[r], nexts[r]));
        let p: MortonKey = e.parent_spec();
        crate::linear::lemma_tiles_bounds(blocks[r], bounds[r], bounds[r + 1], i);
        crate::morton::lemma_parent(e);
        lemma_width_positive(e);
        let first: MortonKey = own[0];
        assert(own.contains(first));
        lemma_width_positive(first);
        if exists|t: int| 0 <= t < own.len() && p.overlaps(#[trigger] own[t]) {
            let t: int = choose|t: int| 0 <= t < own.len() && p.overlaps(#[trigger] own[t]);
            assert(own.contains(own[t]));
            lemma_kept_among_all(blocks, seeds, bounds, nexts, r, own[t]);
            let w: int = choose|w: int| 0 <= w < all.len() && all[w] == own[t];
            assert(p.overlaps(all[w]));
        } else if nexts[r].is_some() && p.overlaps(nexts[r].unwrap()) {
            assert(r < blocks.len() - 1);
            let after: Seq<MortonKey> = linearized(seeds[r + 1]);
            crate::linear::lemma_linearized_linear(seeds[r + 1]);
            assert(nexts[r] == Some(after[0]));
            assert(after.contains(after[0]));
            lemma_kept_among_all(blocks, seeds, bounds, nexts, r + 1, after[0]);
            let w: int = choose|w: int| 0 <= w < all.len() && all[w] == after[0];
            assert(p.overlaps(all[w]));
        } else {
            assert(p.code() < bounds[r]);
            assert(r > 0);
            assert(nexts[r - 1] == Some(own[0]));
            assert(seeds[r - 1].len() > 0);
            assert(block_end(nexts[r - 1]) == bounds[r - 1 + 1]);
            assert(p.overlaps(own[0]));
            assert(false);
        }
    }
}

/// The keys of the first `m` processes, one process after the other, name cells,
/// stand in Morton order and end before the range of the next process starts.
proof fn lemma_seeds_sorted(
    blocks: Seq<Seq<MortonKey>>,
    seeds: Seq<Seq<MortonKey>>,
    bounds: Seq<nat>,
    nexts: Seq<Option<MortonKey>>,
    m: int,
)
    requires
        completed_together(blocks, seeds, bounds, nexts),
        0 <= m <= seeds.len(),
    ensures
        all_wf(concat(seeds.take(m))),
        is_sorted(concat(seeds.take(m))),
        forall|i: int|
            0 <= i < concat(seeds.take(m)).len() ==> (#[trigger] concat(seeds.take(m))[i]).end()
                <= bounds[m],
    decreases m,
{
    if m > 0 {
        lemma_seeds_sorted(blocks, seeds, bounds, nexts, m - 1);
        let head: Seq<MortonKey> = concat(seeds.take(m - 1));
        let last: Seq<MortonKey> = seeds[m - 1];
        let whole: Seq<MortonKey> = concat(seeds.take(m));
        assert(seeds.take(m).drop_last() =~= seeds.take(m - 1));
        assert(seeds.take(m).last() == last);
        assert(whole == head + last);
        assert(all_wf(last) && is_sorted(last));
        assert(is_block_completion(blocks[m - 1], last, bounds[m - 1], nexts[m - 1]));
        assert forall|i: int| 0 <= i < whole.len() implies (#[trigger] whole[i]).wf() && whole[i].end()
            <= bounds[m] by {
            if i < head.len() {
                assert(whole[i] == head[i]);
            } else {
                assert(whole[i] == last[i - head.len()]);
                assert(inside(last[i - head.len()], bounds[m - 1], bounds[m]));
            }
        }
        assert forall|i: int, j: int| 0 <= i < j < whole.len() implies whole[i].morton
            <= whole[j].morton by {
            if j < head.len() {
                assert(whole[i] == head[i]);
                assert(whole[j] == head[j]);
            } else if i >= head.len() {
                assert(whole[i] == last[i - head.len()]);
                assert(whole[j] == last[j - head.len()]);
            } else {
                assert(whole[i] == head[i]);
                assert(whole[j] == last[j - head.len()]);
                assert(inside(last[j - head.len()], bounds[m - 1], bounds[m]));
                assert(head[i].end() <= bounds[m - 1]);
                lemma_width_positive(head[i]);
                crate::morton::lemma_morton_order(head[i], last[j - head.len()]);
            }
        }
    }
}

/// The blocks of all processes together are the tree of one process over the
/// keys of all: where the processes have completed their blocks around their
/// keys and were handed the first keys of the processes after them, their
/// blocks, one after the other, are the completion of all keys.
pub proof fn lemma_blocks_are_the_tree(
    blocks: Seq<Seq<MortonKey>>,
    seeds: Seq<Seq<MortonKey>>,
    bounds: Seq<nat>,
    nexts: Seq<Option<MortonKey>>,
    tree: Seq<MortonKey>,
)
    requires
        completed_together(blocks, seeds, bounds, nexts),
        crate::tree::is_completion_of(tree, concat(seeds)),
    ensures
        concat(blocks) == tree,
        is_sorted(concat(seeds)),
{
    lemma_seeds_sorted(blocks, seeds, bounds, nexts, seeds.len() as int);
    assert(seeds.take(seeds.len() as int) =~= seeds);
    let whole: Seq<MortonKey> = concat(blocks);
    let all: Seq<MortonKey> = linearized(concat(seeds));
    let n: int = blocks.len() as int;
    crate::linear::lemma_linearized_linear(concat(seeds));
    crate::linear::lemma_linearized_members(concat(seeds));
    assert forall|r: int| 0 <= r < blocks.len() implies tiles(
        #[trigger] blocks[r],
        bounds[r],
        bounds[r + 1],
    ) by {
        assert(is_block_completion(blocks[r], seeds[r], bounds[r], nexts[r]));
    }
    lemma_blocks_tile(blocks, bounds);
    assert(block_end(nexts[n - 1]) == bounds[n]);
    assert(holds_first(whole, all, all.len() as int)) by {
        assert forall|j: int| 0 <= j < all.len() implies whole.contains(#[trigger] all[j]) by {
            let x: MortonKey = all[j];
            assert(all.contains(x));
            assert(is_finest_in(x, concat(seeds)));
            let b: int = choose|b: int| 0 <= b < concat(seeds).len() && concat(seeds)[b] == x;
            let from: (int, int) = crate::balance::lemma_concat_member(seeds, b);
            let own: Seq<MortonKey> = seeds[from.0];
            crate::linear::lemma_linearized_members(own);
            assert(own.contains(x));
            assert forall|c: int| 0 <= c < own.len() && x.covers(#[trigger] own[c]) implies own[c]
                == x by {
                let g: int = crate::balance::lemma_concat_holds(seeds, from.0, c);
                assert(x.covers(concat(seeds)[g]));
            }
            assert(is_finest_in(x, own));
            assert(linearized(own).contains(x));
            assert(is_block_completion(blocks[from.0], own, bounds[from.0], nexts[from.0]));
            let t: int = choose|t: int| 0 <= t < linearized(own).len() && linearized(own)[t] == x;
            assert(blocks[from.0].contains(linearized(own)[t]));
            let at: int = choose|at: int|
                0 <= at < blocks[from.0].len() && blocks[from.0][at] == x;
            let g: int = crate::balance::lemma_concat_holds(blocks, from.0, at);
            assert(whole[g] == x);
        }
    }
    assert(all_marked(whole, all, 0, None)) by {
        assert forall|j: int| 0 <= j < whole.len() implies all.contains(#[trigger] whole[j])
            || crate::completion::is_filler(whole[j], all, 0, None) by {
            let from: (int, int) = crate::balance::lemma_concat_member(blocks, j);
            lemma_marked_among_all(blocks, seeds, bounds, nexts, from.0, from.1);
        }
    }
    crate::completion::lemma_completion_unique(whole, tree, all, 0, None);
}

/// The state is as before but for the named fields.
pub open spec fn same_process(pre: Build, post: Build) -> bool {
    post.rank == pre.rank && post.size == pre.size && post.balance == pre.balance
}

/// The build stops and the state stays as it is.
pub open spec fn aborted(pre: Build, post: Build, action: Action) -> bool {
    post == pre && action is Abort
}

/// What follows when the encoded points arrive.
pub open spec fn after_encoded(pre: Build, points: Seq<Point>, post: Build, action: Action) -> bool {
    if all_points_wf(points) && points.len() * pre.size <= usize::MAX {
        &&& same_process(pre, post)
        &&& post.phase == Phase::LocallySorted
        &&& !post.cut
        &&& all_points_wf(post.points@)
        &&& points_sorted(post.points@)
        &&& post.points@.to_multiset() == points.to_multiset()
        &&& post.keys@ == keys_of(post.points@)
        &&& match action {
            Action::GatherSamples(s) => s@ == picks(post.keys@, pre.size as nat),
            _ => false,
        }
    } else {
        aborted(pre, post, action)
    }
}

/// What follows when the gathered samples arrive.
pub open spec fn after_samples(
    pre: Build,
    samples: Seq<MortonKey>,
    post: Build,
    action: Action,
) -> bool {
    if samples.len() * pre.size <= usize::MAX && pre.size <= usize::MAX - 2 {
        &&& same_process(pre, post)
        &&& post.phase == Phase::LocallySorted
        &&& post.cut
        &&& post.points@ == pre.points@
        &&& post.keys@ == pre.keys@
        &&& match action {
            Action::Exchange(offsets) => exists|splitters: Seq<MortonKey>| #[trigger]
                is_splitters_of(splitters, samples, pre.size as nat) && cuts_at(
                    offsets@,
                    pre.keys@,
                    splitters,
                ),
            _ => false,
        }
    } else {
        aborted(pre, post, action)
    }
}

/// The offsets cut the sorted keys at the splitters.
pub open spec fn cuts_at(offsets: Seq<usize>, keys: Seq<MortonKey>, splitters: Seq<MortonKey>) -> bool {
    &&& offsets.len() == splitters.len() + 2
    &&& offsets[0] == 0
    &&& offsets[offsets.len() - 1] == keys.len()
    &&& forall|b: int|
        0 <= b < splitters.len() ==> is_lower_bound(
            keys,
            #[trigger] splitters[b],
            offsets[b + 1] as int,
        )
}

/// What follows when the points of the block arrive.
pub open spec fn after_exchanged(
    pre: Build,
    points: Seq<Point>,
    post: Build,
    action: Action,
) -> bool {
    if points.len() > 0 && all_points_wf(points) {
        &&& same_process(pre, post)
        &&& post.phase == Phase::Partitioned
        &&& all_points_wf(post.points@)
        &&& points_sorted(post.points@)
        &&& post.points@.to_multiset() == points.to_multiset()
        &&& post.keys@ == keys_of(post.points@)
        &&& match action {
            Action::ExchangeBounds(first, last) => first == post.keys@[0] && last == post.keys@[
                post.keys@.len() - 1],
            _ => false,
        }
    } else {
        aborted(pre, post, action)
    }
}

/// The first code of the block of a process with the given sorted keys.
pub open spec fn block_lower(rank: usize, keys: Seq<MortonKey>) -> nat {
    if rank == 0 {
        0
    } else {
        keys[0].code()
    }
}

/// The blocks of the neighbours lie on either side of the keys of the process:
/// every process but the first has a process before it, every process but the
/// last has one after it, and their keys lie outside the keys of the process.
pub open spec fn fits_between(
    seeds: Seq<MortonKey>,
    rank: usize,
    size: usize,
    before: Option<MortonKey>,
    bound: Option<MortonKey>,
) -> bool {
    &&& seeds.len() > 0
    &&& (rank == 0) == before.is_none()
    &&& (rank + 1 == size) == bound.is_none()
    &&& before.is_some() ==> before.unwrap().wf() && before.unwrap().end() <= seeds[0].code()
    &&& bound.is_some() ==> bound.unwrap().wf() && seeds[seeds.len() - 1].end()
        <= bound.unwrap().code()
}

/// What follows when the keys of the neighbours arrive.
pub open spec fn after_bounds(
    pre: Build,
    before: Option<MortonKey>,
    bound: Option<MortonKey>,
    post: Build,
    action: Action,
) -> bool {
    let seeds: Seq<MortonKey> = pre.keys@;
    let lower: nat = block_lower(pre.rank, seeds);
    if fits_between(seeds, pre.rank, pre.size, before, bound) {
        &&& same_process(pre, post)
        &&& post.points@ == pre.points@
        &&& post.lower == lower
        &&& post.next == bound
        &&& tiles(post.keys@, lower, block_end(bound))
        &&& if pre.balance {
            &&& post.phase == Phase::Balanced
            &&& exists|t: Seq<MortonKey>| #[trigger]
                is_block_completion(t, seeds, lower, bound) && is_block_pass(
                    post.keys@,
                    t,
                    Seq::empty(),
                    lower,
                    bound,
                ) && post.changed == (post.keys@ != t) && action_hands_out(action, t, lower, bound)
        } else {
            &&& post.phase == Phase::Ready
            &&& is_block_completion(post.keys@, seeds, lower, bound)
            &&& action is Done
        }
    } else {
        aborted(pre, post, action)
    }
}

/// `tree` is the completion of the block of the keys `seeds`.
pub open spec fn is_block_completion(
    tree: Seq<MortonKey>,
    seeds: Seq<MortonKey>,
    lower: nat,
    next: Option<MortonKey>,
) -> bool {
    &&& tiles(tree, lower, block_end(next))
    &&& holds_first(tree, linearized(seeds), linearized(seeds).len() as int)
    &&& all_marked(tree, linearized(seeds), lower, next)
}

/// The keys handed out are those of the working set of `keys` that do not lie
/// in the range of the block.
pub open spec fn hands_out(
    out: Seq<MortonKey>,
    keys: Seq<MortonKey>,
    lower: nat,
    next: Option<MortonKey>,
) -> bool {
    forall|x: MortonKey| #[trigger]
        out.contains(x) <==> (in_working_set(x, keys) && !inside(x, lower, block_end(next)))
}

/// The action hands out the keys of the working set of `keys` that do not lie in
/// the range of the block.
pub open spec fn action_hands_out(
    action: Action,
    keys: Seq<MortonKey>,
    lower: nat,
    next: Option<MortonKey>,
) -> bool {
    match action {
        Action::ExchangeBoundary(out) => hands_out(out@, keys, lower, next),
        _ => false,
    }
}

/// What follows when the keys that were handed out arrive.
pub open spec fn after_boundary(
    pre: Build,
    received: Seq<MortonKey>,
    post: Build,
    action: Action,
) -> bool {
    if all_wf(received) {
        &&& same_process(pre, post)
        &&& post.phase == Phase::Balanced
        &&& post.points@ == pre.points@
        &&& post.lower == pre.lower
        &&& post.next == pre.next
        &&& is_block_pass(post.keys@, pre.keys@, received, pre.lower as nat, pre.next)
        &&& block_settled(
            post.keys@,
            pre.lower as nat,
            block_end(pre.next),
            block_seeds(pre.keys@, received),
        )
        &&& post.changed == (pre.changed || post.keys@ != pre.keys@)
        &&& match action {
            Action::ReduceChanged(c) => c == post.changed,
            _ => false,
        }
    } else {
        aborted(pre, post, action)
    }
}

/// What follows when it is known whether any block has changed.
pub open spec fn after_changed(pre: Build, any: bool, post: Build, action: Action) -> bool {
    if !any && pre.changed {
        // no block has changed, says the reduction, but this one has
        aborted(pre, post, action)
    } else {
        &&& same_process(pre, post)
        &&& post.points@ == pre.points@
        &&& post.lower == pre.lower
        &&& post.next == pre.next
        &&& if any {
            &&& post.phase == Phase::Balanced
            &&& is_block_pass(post.keys@, pre.keys@, Seq::empty(), pre.lower as nat, pre.next)
            &&& post.changed == (post.keys@ != pre.keys@)
            &&& action_hands_out(action, pre.keys@, pre.lower as nat, pre.next)
        } else {
            &&& post.phase == Phase::Ready
            &&& post.keys@ == pre.keys@
            &&& post.settled_for@ == pre.settled_for@
            &&& action is Done
        }
    }
}

/// What a step does, stage by stage.
pub open spec fn transition(pre: Build, event: Event, post: Build, action: Action) -> bool {
    match event {
        Event::DomainReduced => if pre.phase == Phase::Init {
            same_process(pre, post) && post.phase == Phase::DomainReduced && action is Encode
        } else {
            aborted(pre, post, action)
        },
        Event::Encoded(points) => if pre.phase == Phase::DomainReduced {
            after_encoded(pre, points@, post, action)
        } else {
            aborted(pre, post, action)
        },
        Event::Samples(samples) => if pre.phase == Phase::LocallySorted && !pre.cut {
            after_samples(pre, samples@, post, action)
        } else {
            aborted(pre, post, action)
        },
        Event::Exchanged(points) => if pre.phase == Phase::LocallySorted && pre.cut {
            after_exchanged(pre, points@, post, action)
        } else {
            aborted(pre, post, action)
        },
        Event::Bounds(before, bound) => if pre.phase == Phase::Partitioned {
            after_bounds(pre, before, bound, post, action)
        } else {
            aborted(pre, post, action)
        },
        Event::Boundary(received) => if pre.phase == Phase::Balanced {
            after_boundary(pre, received@, post, action)
        } else {
            aborted(pre, post, action)
        },
        Event::Changed(any) => if pre.phase == Phase::Balanced {
            after_changed(pre, any, post, action)
        } else {
            aborted(pre, post, action)
        },
    }
}

} // verus!
