use rusty_tree::distributed::{Action, Build, DistributedTree, Event, Phase};
use rusty_tree::morton::{MortonKey, CODE_LIMIT};
use rusty_tree::partition::{
    bin_offsets, choose_splitters, lower_bound, merge_bins, select_samples,
};
use rusty_tree::relations::{find_leaf, locate_points};
use rusty_tree::tree::point_keys;
use rusty_tree::tree::{LocalTree, Point};

fn key(code: u64) -> MortonKey {
    MortonKey::from_parts(code, 16)
}

/// A small generator of numbers that look random and are the same in every run.
struct Numbers {
    state: u64,
}

impl Numbers {
    fn next(&mut self) -> u64 {
        self.state = self.state.wrapping_mul(6364136223846793005).wrapping_add(1442695040888963407);
        self.state >> 33
    }
}

fn random_points(count: usize, seed: u64) -> Vec<Point> {
    let mut numbers = Numbers { state: seed };
    (0..count)
        .map(|i| {
            let x = numbers.next() % 65536;
            let y = numbers.next() % 65536;
            let z = numbers.next() % 65536;
            Point::new([x, y, z], i as u64)
        })
        .collect()
}

fn clustered_points(count: usize, seed: u64) -> Vec<Point> {
    let mut numbers = Numbers { state: seed };
    (0..count)
        .map(|i| {
            let x = 30000 + numbers.next() % 64;
            let y = 30000 + numbers.next() % 64;
            let z = 30000 + numbers.next() % 64;
            Point::new([x, y, z], i as u64)
        })
        .collect()
}

/// Runs the build of all processes in turn and carries out their exchanges.
fn build_together(parts: Vec<Vec<Point>>, balance: bool) -> Vec<DistributedTree> {
    let size = parts.len();
    let mut builds: Vec<Build> = (0..size).map(|r| Build::new(r, size, balance)).collect();

    let mut next: Vec<Build> = Vec::new();
    for b in builds {
        let (b, action) = b.step(Event::DomainReduced);
        assert!(matches!(action, Action::Encode));
        assert!(b.phase == Phase::DomainReduced);
        next.push(b);
    }
    builds = next;

    let mut samples: Vec<MortonKey> = Vec::new();
    let mut next: Vec<Build> = Vec::new();
    for (b, points) in builds.into_iter().zip(parts.into_iter()) {
        let (b, action) = b.step(Event::Encoded(points));
        assert!(b.phase == Phase::LocallySorted);
        match action {
            Action::GatherSamples(s) => samples.extend(s),
            _ => panic!("samples expected"),
        }
        next.push(b);
    }
    builds = next;

    let mut bins: Vec<Vec<Point>> = (0..size).map(|_| Vec::new()).collect();
    let mut next: Vec<Build> = Vec::new();
    for b in builds {
        let (b, action) = b.step(Event::Samples(samples.clone()));
        match action {
            Action::Exchange(offsets) => {
                assert_eq!(offsets.len(), size + 1);
                for r in 0..size {
                    bins[r].extend_from_slice(&b.points[offsets[r]..offsets[r + 1]]);
                }
            }
            _ => panic!("offsets expected"),
        }
        next.push(b);
    }
    builds = next;

    let mut firsts: Vec<MortonKey> = Vec::new();
    let mut lasts: Vec<MortonKey> = Vec::new();
    let mut next: Vec<Build> = Vec::new();
    for (b, points) in builds.into_iter().zip(bins.into_iter()) {
        let (b, action) = b.step(Event::Exchanged(points));
        assert!(b.phase == Phase::Partitioned);
        match action {
            Action::ExchangeBounds(first, last) => {
                assert!(first <= last);
                firsts.push(first);
                lasts.push(last);
            }
            _ => panic!("first and last key expected"),
        }
        next.push(b);
    }
    builds = next;

    let mut outgoing: Vec<MortonKey> = Vec::new();
    let mut next: Vec<Build> = Vec::new();
    for (r, b) in builds.into_iter().enumerate() {
        let before = if r > 0 { Some(lasts[r - 1]) } else { None };
        let bound = if r + 1 < size { Some(firsts[r + 1]) } else { None };
        let (b, action) = b.step(Event::Bounds(before, bound));
        match action {
            Action::Done => assert!(!balance),
            Action::ExchangeBoundary(out) => {
                assert!(balance);
                outgoing.extend(out);
            }
            _ => panic!("completion expected"),
        }
        next.push(b);
    }
    builds = next;

    if balance {
        let mut rounds = 0;
        loop {
            rounds += 1;
            assert!(rounds < 64);
            let mut any = false;
            let mut next: Vec<Build> = Vec::new();
            for b in builds {
                let (b, action) = b.step(Event::Boundary(outgoing.clone()));
                match action {
                    Action::ReduceChanged(changed) => any = any || changed,
                    _ => panic!("change expected"),
                }
                next.push(b);
            }
            builds = next;
            outgoing = Vec::new();
            let mut done = true;
            let mut next: Vec<Build> = Vec::new();
            for b in builds {
                let (b, action) = b.step(Event::Changed(any));
                match action {
                    Action::Done => {}
                    Action::ExchangeBoundary(out) => {
                        done = false;
                        outgoing.extend(out);
                    }
                    _ => panic!("round expected"),
                }
                next.push(b);
            }
            builds = next;
            if done {
                break;
            }
        }
    }
    builds
        .into_iter()
        .map(|b| {
            assert!(b.phase == Phase::Ready);
            b.finish()
        })
        .collect()
}

fn split(points: &Vec<Point>, parts: usize) -> Vec<Vec<Point>> {
    let mut out: Vec<Vec<Point>> = (0..parts).map(|_| Vec::new()).collect();
    for (i, p) in points.iter().enumerate() {
        out[i % parts].push(*p);
    }
    out
}

#[test]
fn select_samples_is_equally_spaced() {
    let keys: Vec<MortonKey> = (0..10).map(|i| key(i * 3)).collect();
    assert_eq!(select_samples(&keys, 4), vec![key(6), key(15), key(21)]);
    assert_eq!(select_samples(&keys, 1), Vec::<MortonKey>::new());
    assert_eq!(select_samples(&keys, 2), vec![key(15)]);
    assert_eq!(select_samples(&Vec::new(), 4), Vec::<MortonKey>::new());
    assert_eq!(select_samples(&vec![key(9)], 3), vec![key(9), key(9)]);
}

#[test]
fn choose_splitters_sorts_the_samples_first() {
    let samples = vec![key(50), key(10), key(40), key(20), key(30), key(60)];
    assert_eq!(choose_splitters(samples, 3), vec![key(30), key(50)]);
}

#[test]
fn lower_bound_finds_the_first_key_not_below() {
    let keys: Vec<MortonKey> = vec![key(1), key(3), key(3), key(8)];
    assert_eq!(lower_bound(&keys, &key(0)), 0);
    assert_eq!(lower_bound(&keys, &key(3)), 1);
    assert_eq!(lower_bound(&keys, &key(4)), 3);
    assert_eq!(lower_bound(&keys, &key(9)), 4);
    assert_eq!(lower_bound(&Vec::new(), &key(9)), 0);
}

#[test]
fn bin_offsets_cut_at_the_splitters() {
    let keys: Vec<MortonKey> = vec![key(1), key(3), key(3), key(8), key(9)];
    let splitters = vec![key(3), key(9)];
    assert_eq!(bin_offsets(&keys, &splitters), vec![0, 1, 4, 5]);
    assert_eq!(bin_offsets(&keys, &Vec::new()), vec![0, 5]);
    assert_eq!(bin_offsets(&Vec::new(), &splitters), vec![0, 0, 0, 0]);
}

#[test]
fn merge_bins_gives_one_sorted_sequence() {
    let bins = vec![vec![key(5), key(9)], Vec::new(), vec![key(1), key(7)], vec![key(5)]];
    assert_eq!(merge_bins(&bins), vec![key(1), key(5), key(5), key(7), key(9)]);
}

#[test]
fn steps_out_of_turn_stop_the_build() {
    let b = Build::new(0, 2, false);
    let (b, action) = b.step(Event::Changed(true));
    assert!(matches!(action, Action::Abort));
    assert!(b.phase == Phase::Init);
    let (b, action) = b.step(Event::Samples(Vec::new()));
    assert!(matches!(action, Action::Abort));
    let (b, _) = b.step(Event::DomainReduced);
    let broken = Point { anchor: [1, 2, 3], global_index: 0, morton_key: MortonKey::root() };
    let (b, action) = b.step(Event::Encoded(vec![broken]));
    assert!(matches!(action, Action::Abort));
    assert!(b.phase == Phase::DomainReduced);
    let (b, action) = b.step(Event::Encoded(vec![Point::new([1, 2, 3], 0)]));
    assert!(matches!(action, Action::GatherSamples(_)));
    let (b, action) = b.step(Event::Exchanged(Vec::new()));
    assert!(matches!(action, Action::Abort));
    assert!(b.phase == Phase::LocallySorted);
}

#[test]
fn overlapping_blocks_stop_the_build() {
    let b = Build::new(1, 3, false);
    let (b, _) = b.step(Event::DomainReduced);
    let (b, _) = b.step(Event::Encoded(vec![Point::new([5, 5, 5], 0), Point::new([9, 9, 9], 1)]));
    let (b, _) = b.step(Event::Samples(Vec::new()));
    let (b, action) =
        b.step(Event::Exchanged(vec![Point::new([9, 9, 9], 1), Point::new([5, 5, 5], 0)]));
    match action {
        Action::ExchangeBounds(first, last) => {
            assert_eq!(first, MortonKey::from_anchor([5, 5, 5], 16));
            assert_eq!(last, MortonKey::from_anchor([9, 9, 9], 16));
        }
        _ => panic!("first and last key expected"),
    }
    let before = MortonKey::from_anchor([1, 1, 1], 16);
    let after = MortonKey::from_anchor([100, 100, 100], 16);
    // the process after starts inside this block
    let inside = MortonKey::from_anchor([6, 6, 6], 16);
    let (b, action) = b.step(Event::Bounds(Some(before), Some(inside)));
    assert!(matches!(action, Action::Abort));
    assert!(b.phase == Phase::Partitioned);
    // the process before ends inside this block
    let (b, action) = b.step(Event::Bounds(Some(inside), Some(after)));
    assert!(matches!(action, Action::Abort));
    // a key that names no cell
    let (b, action) = b.step(Event::Bounds(Some(MortonKey { morton: 17 }), Some(after)));
    assert!(matches!(action, Action::Abort));
    // a process in the middle has a process on either side
    let (b, action) = b.step(Event::Bounds(Some(before), None));
    assert!(matches!(action, Action::Abort));
    let (b, action) = b.step(Event::Bounds(None, Some(after)));
    assert!(matches!(action, Action::Abort));
    assert!(b.phase == Phase::Partitioned);
    let (b, action) = b.step(Event::Bounds(Some(before), Some(after)));
    assert!(matches!(action, Action::Done));
    assert!(b.phase == Phase::Ready);
    let tree = b.finish();
    assert_eq!(tree.keys[0], MortonKey::from_anchor([5, 5, 5], 16));
    assert_eq!(tree.keys[tree.keys.len() - 1].position_end(), after.position());
}

#[test]
fn the_first_and_the_last_process_have_one_neighbor() {
    let points = vec![Point::new([5, 5, 5], 0)];
    let other = MortonKey::from_anchor([100, 100, 100], 16);
    let start = |rank: usize| {
        let b = Build::new(rank, 2, false);
        let (b, _) = b.step(Event::DomainReduced);
        let (b, _) = b.step(Event::Encoded(points.clone()));
        let (b, _) = b.step(Event::Samples(Vec::new()));
        let (b, _) = b.step(Event::Exchanged(points.clone()));
        b
    };
    let (_, action) = start(0).step(Event::Bounds(Some(MortonKey::root().first_descendant()), Some(other)));
    assert!(matches!(action, Action::Abort));
    let (_, action) = start(0).step(Event::Bounds(None, None));
    assert!(matches!(action, Action::Abort));
    let (b, action) = start(0).step(Event::Bounds(None, Some(other)));
    assert!(matches!(action, Action::Done));
    assert_eq!(b.finish().keys[0].position(), 0);
    let (_, action) = start(1).step(Event::Bounds(None, None));
    assert!(matches!(action, Action::Abort));
    let first = MortonKey::root().first_descendant();
    let (b, action) = start(1).step(Event::Bounds(Some(first), None));
    assert!(matches!(action, Action::Done));
    let tree = b.finish();
    assert_eq!(tree.keys[0], MortonKey::from_anchor([5, 5, 5], 16));
    assert_eq!(tree.keys[tree.keys.len() - 1].position_end(), CODE_LIMIT);
}

#[test]
fn a_changed_block_does_not_end_the_rounds() {
    let points = clustered_points(5, 3);
    let b = Build::new(0, 1, true);
    let (b, _) = b.step(Event::DomainReduced);
    let (b, _) = b.step(Event::Encoded(points.clone()));
    let (b, _) = b.step(Event::Samples(Vec::new()));
    let (b, _) = b.step(Event::Exchanged(points));
    let (b, action) = b.step(Event::Bounds(None, None));
    let outgoing = match action {
        Action::ExchangeBoundary(out) => out,
        _ => panic!("a round expected"),
    };
    assert!(b.phase == Phase::Balanced);
    let (b, action) = b.step(Event::Boundary(outgoing));
    // the tree of a few clustered points is not balanced by its completion
    assert!(matches!(action, Action::ReduceChanged(true)));
    let (b, action) = b.step(Event::Changed(false));
    assert!(matches!(action, Action::Abort));
    assert!(b.phase == Phase::Balanced);
    assert!(b.changed);
    let (b, action) = b.step(Event::Changed(true));
    assert!(matches!(action, Action::ExchangeBoundary(_)));
    assert!(b.phase == Phase::Balanced);
}

#[test]
fn one_process_builds_the_local_tree() {
    let points = random_points(50, 11);
    let trees = build_together(vec![points.clone()], false);
    let local = LocalTree::new(points, false);
    assert_eq!(trees.len(), 1);
    assert_eq!(trees[0].keys, local.keys);
    assert_eq!(trees[0].points.len(), 50);
    assert!(!trees[0].balanced);
}

#[test]
fn random_points_four_processes() {
    let points = random_points(1000, 2024);
    let trees = build_together(split(&points, 4), false);
    let serial = LocalTree::new(points, false);
    let mut global: Vec<MortonKey> = Vec::new();
    let mut count = 0;
    for t in trees.iter() {
        assert!(!t.keys.is_empty());
        global.extend(t.keys.iter().copied());
        count += t.points.len();
    }
    assert_eq!(count, 1000);
    assert_eq!(global, serial.keys);
    // every process holds the leaves of its own points, and of no others
    for (r, t) in trees.iter().enumerate() {
        let own = locate_points(&t.keys, &point_keys(&t.points));
        for (p, leaf) in t.points.iter().zip(own.iter()) {
            assert_eq!(t.keys[leaf.unwrap()], p.morton_key);
        }
        let other = &trees[(r + 1) % 4];
        let elsewhere = locate_points(&t.keys, &point_keys(&other.points));
        assert!(elsewhere.iter().all(|leaf| leaf.is_none()));
    }
    for i in 0..global.len() - 1 {
        assert!(global[i] < global[i + 1]);
    }
    // the points of all processes, one process after the other, stand in order
    let mut all_points: Vec<Point> = Vec::new();
    for t in trees.iter() {
        all_points.extend(t.points.iter().copied());
    }
    for i in 0..all_points.len() - 1 {
        assert!(all_points[i].morton_key <= all_points[i + 1].morton_key);
    }
}

#[test]
fn clustered_points_two_processes_balanced() {
    let points = clustered_points(40, 5);
    let trees = build_together(split(&points, 2), true);
    assert_eq!(trees.len(), 2);
    assert!(trees[0].balanced && trees[1].balanced);
    // the boundary between the processes splits the cluster
    assert!(!trees[0].points.is_empty() && !trees[1].points.is_empty());
    let mut global: Vec<MortonKey> = Vec::new();
    for t in trees.iter() {
        global.extend(t.keys.iter().copied());
    }
    let mut at: u64 = 0;
    for k in global.iter() {
        assert_eq!(k.position(), at);
        at = k.position_end();
    }
    assert_eq!(at, CODE_LIMIT);
    for k in global.iter() {
        for n in k.neighbors().iter() {
            if let Some(j) = find_leaf(&global, n) {
                assert!(global[j].level() + 1 >= k.level());
            }
        }
    }
    for p in points.iter() {
        assert!(global.contains(&p.morton_key));
    }
}

#[test]
fn balanced_build_of_one_process_matches_the_local_tree() {
    let points = clustered_points(10, 77);
    let trees = build_together(vec![points.clone()], true);
    let local = LocalTree::new(points, true);
    assert_eq!(trees[0].keys, local.keys);
}
