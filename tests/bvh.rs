use ray_tracing::bvh::{scan_nearest, Bvh, BvhChild, Found};
use ray_tracing::order::KeyRange;
use ray_tracing::sort::sort_by_start;

/// A primitive on a line of distance keys: a segment crossed where it begins
/// and where it ends.
#[derive(Clone, Copy)]
struct Segment {
    lo: u32,
    hi: u32,
}

fn first_crossing(s: &Segment, t: KeyRange) -> Option<u32> {
    [s.lo, s.hi].into_iter().find(|&c| t.contains(c))
}

fn segment_box(segs: &[Segment], items: &[usize]) -> KeyRange {
    let mut b = KeyRange::new(u32::MAX, 0);
    for &i in items {
        b = b.join(&KeyRange::new(segs[i].lo, segs[i].hi + 1));
    }
    b
}

fn starts_of(segs: &[Segment]) -> Vec<[u32; 3]> {
    segs.iter()
        .enumerate()
        .map(|(i, s)| [(s.lo as f32).to_bits(), (-(s.hi as f32)).to_bits(), (i as f32).to_bits()])
        .collect()
}

fn build(segs: &[Segment]) -> Bvh<KeyRange> {
    let starts = starts_of(segs);
    let summarize = |v: &Vec<usize>| -> (KeyRange, usize) {
        (segment_box(segs, v), v.iter().sum::<usize>() % 3)
    };
    Bvh::from_starts(&starts, &summarize)
}

fn tree_hit(tree: &Bvh<KeyRange>, segs: &[Segment], t: KeyRange) -> Option<Found<usize>> {
    let leaf = |i: usize, q: KeyRange| -> Option<Found<usize>> {
        first_crossing(&segs[i], q).map(|d| Found { distance: d, hit: i })
    };
    let bx = |b: &KeyRange, q: KeyRange| -> bool { b.start < q.end && q.start < b.end };
    tree.hit(t, &leaf, &bx)
}

fn linear_hit(segs: &[Segment], t: KeyRange) -> Option<Found<usize>> {
    let leaf = |i: usize, q: KeyRange| -> Option<Found<usize>> {
        first_crossing(&segs[i], q).map(|d| Found { distance: d, hit: i })
    };
    scan_nearest(segs.len(), t, &leaf)
}

fn brute_force(segs: &[Segment], t: KeyRange) -> Option<u32> {
    segs.iter().filter_map(|s| first_crossing(s, t)).min()
}

struct Lcg(u64);

impl Lcg {
    fn next(&mut self) -> u32 {
        self.0 = self.0.wrapping_mul(6364136223846793005).wrapping_add(1442695040888963407);
        (self.0 >> 33) as u32
    }
}

fn random_scene(rng: &mut Lcg, n: usize) -> Vec<Segment> {
    (0..n)
        .map(|_| {
            let lo = rng.next() % 10_000;
            Segment { lo, hi: lo + 1 + rng.next() % 300 }
        })
        .collect()
}

fn leaves(c: &BvhChild<KeyRange>, out: &mut Vec<usize>) {
    match c {
        BvhChild::Leaf(i) => out.push(*i),
        BvhChild::Node(n) => {
            leaves(&n.left, out);
            leaves(&n.right, out);
        },
    }
}

#[test]
fn bvh_agrees_with_linear_search() {
    let mut rng = Lcg(12345);
    for n in [1usize, 2, 10, 1000] {
        let segs = random_scene(&mut rng, n);
        let tree = build(&segs);
        for _ in 0..200 {
            let a = rng.next() % 11_000;
            let b = a + rng.next() % 4_000;
            let t = KeyRange::new(a, b);
            let expected = brute_force(&segs, t);
            let by_tree = tree_hit(&tree, &segs, t).map(|f| f.distance);
            let by_scan = linear_hit(&segs, t).map(|f| f.distance);
            assert_eq!(by_tree, expected, "n = {}", n);
            assert_eq!(by_scan, expected, "n = {}", n);
        }
    }
}

#[test]
fn hit_reports_the_primitive_found() {
    let segs = vec![Segment { lo: 50, hi: 60 }, Segment { lo: 20, hi: 30 }, Segment { lo: 40, hi: 45 }];
    let tree = build(&segs);
    let found = tree_hit(&tree, &segs, KeyRange::new(0, 1000)).unwrap();
    assert_eq!((found.distance, found.hit), (20, 1));
    let found = tree_hit(&tree, &segs, KeyRange::new(25, 1000)).unwrap();
    assert_eq!((found.distance, found.hit), (30, 1));
    assert!(tree_hit(&tree, &segs, KeyRange::new(61, 1000)).is_none());
    assert!(tree_hit(&tree, &segs, KeyRange::new(0, 20)).is_none());
}

#[test]
fn scan_prefers_earlier_primitive_on_equal_distance() {
    let segs = vec![Segment { lo: 5, hi: 9 }, Segment { lo: 5, hi: 7 }];
    let found = linear_hit(&segs, KeyRange::new(0, 100)).unwrap();
    assert_eq!((found.distance, found.hit), (5, 0));
}

#[test]
fn single_item_sits_on_both_sides() {
    let segs = vec![Segment { lo: 3, hi: 4 }];
    let tree = build(&segs);
    assert!(matches!(tree.left, BvhChild::Leaf(0)));
    assert!(matches!(tree.right, BvhChild::Leaf(0)));
    assert_eq!(tree.bbox, KeyRange::new(3, 5));
}

#[test]
fn two_items_keep_their_order() {
    let segs = vec![Segment { lo: 9, hi: 10 }, Segment { lo: 1, hi: 2 }];
    let tree = build(&segs);
    assert!(matches!(tree.left, BvhChild::Leaf(0)));
    assert!(matches!(tree.right, BvhChild::Leaf(1)));
}

#[test]
fn larger_sets_split_at_the_median_of_sorted_starts() {
    // Root of 0..5 sums to 10: axis 1, the negated ends.
    let segs = vec![
        Segment { lo: 0, hi: 50 },
        Segment { lo: 10, hi: 20 },
        Segment { lo: 20, hi: 40 },
        Segment { lo: 30, hi: 10 },
        Segment { lo: 40, hi: 30 },
    ];
    let tree = build(&segs);
    let mut left = Vec::new();
    let mut right = Vec::new();
    leaves(&tree.left, &mut left);
    leaves(&tree.right, &mut right);
    left.sort();
    left.dedup();
    right.sort();
    right.dedup();
    assert_eq!(left, vec![0, 2]);
    assert_eq!(right, vec![1, 3, 4]);
    assert!(matches!(tree.left, BvhChild::Node(_)));
    assert!(matches!(tree.right, BvhChild::Node(_)));
}

#[test]
fn sort_by_start_is_stable() {
    let starts: Vec<[u32; 3]> = [3.0f32, 1.0, 3.0, -2.0, 1.0]
        .iter()
        .map(|v| [v.to_bits(), 0, 0])
        .collect();
    let mut items = vec![0usize, 1, 2, 3, 4];
    sort_by_start(&mut items, &starts, 0);
    assert_eq!(items, vec![3, 1, 4, 0, 2]);
    let mut items = vec![4usize, 2, 0];
    sort_by_start(&mut items, &starts, 0);
    assert_eq!(items, vec![4, 2, 0]);
}

#[test]
fn build_over_given_items_uses_only_those() {
    let segs = random_scene(&mut Lcg(7), 12);
    let starts = starts_of(&segs);
    let summarize = |v: &Vec<usize>| -> (KeyRange, usize) { (segment_box(&segs, v), 0) };
    let tree = Bvh::build(vec![11, 3, 5, 7], &starts, &summarize);
    let mut got = Vec::new();
    leaves(&BvhChild::Node(Box::new(tree)), &mut got);
    got.sort();
    got.dedup();
    assert_eq!(got, vec![3, 5, 7, 11]);
}

#[test]
fn missed_root_box_reports_nothing() {
    let segs = vec![Segment { lo: 10, hi: 20 }, Segment { lo: 30, hi: 40 }, Segment { lo: 50, hi: 60 }];
    let tree = build(&segs);
    let leaf = |i: usize, q: KeyRange| -> Option<Found<usize>> {
        first_crossing(&segs[i], q).map(|d| Found { distance: d, hit: i })
    };
    let never = |_b: &KeyRange, _q: KeyRange| -> bool { false };
    assert!(tree.hit(KeyRange::new(0, 100), &leaf, &never).is_none());
}
