use rand::{Rng, SeedableRng};
use rand_xorshift::XorShiftRng;
use raytracer_core::kd_tree::{nearest_linear, KdEntry, KdTree};
use raytracer_core::vec::Vec3;

fn pairs(found: &[raytracer_core::kd_tree::KdNeighbor]) -> Vec<(i64, usize)> {
    found.iter().map(|n| (n.distance, n.value)).collect()
}

#[test]
fn kd_tree_test_simple() {
    let entries = vec![
        KdEntry::new(Vec3::new(1, 0, 0), 1),
        KdEntry::new(Vec3::new(2, 0, 0), 2),
        KdEntry::new(Vec3::new(3, 0, 0), 3),
    ];
    let tree = KdTree::new(entries.clone());
    let origin = Vec3::new(0, 0, 0);
    assert_eq!(Vec::<(i64, usize)>::new(), pairs(&tree.nearest(origin, 0)));
    assert_eq!(vec![(1, 1)], pairs(&tree.nearest(origin, 1)));
    assert_eq!(vec![(1, 1), (4, 2)], pairs(&tree.nearest(origin, 2)));
    assert_eq!(vec![(1, 1), (4, 2), (9, 3)], pairs(&tree.nearest(origin, 3)));
}

fn random_point(rng: &mut XorShiftRng) -> Vec3 {
    let res = 1000.0f64;
    Vec3::new(
        (rng.gen_range(0.0..1.0) * res).round() as i64,
        (rng.gen_range(0.0..1.0) * res).round() as i64,
        (rng.gen_range(0.0..1.0) * res).round() as i64,
    )
}

fn square_distance(a: Vec3, b: Vec3) -> i64 {
    let dx = a.x() - b.x();
    let dy = a.y() - b.y();
    let dz = a.z() - b.z();
    dx * dx + dy * dy + dz * dz
}

fn assert_kd_tree(entries: &[KdEntry], lo: usize, hi: usize) {
    if lo >= hi {
        return;
    }
    let mid = lo + (hi - lo) / 2;
    let c = entries[mid];
    let axis = c.axis;
    for x in &entries[lo..mid] {
        assert!(x.position.c[axis] <= c.position.c[axis]);
    }
    for x in &entries[mid + 1..hi] {
        assert!(c.position.c[axis] <= x.position.c[axis]);
    }
    for a in 0..3 {
        let lo_a = entries[lo..hi].iter().map(|x| x.position.c[a]).min().unwrap();
        let hi_a = entries[lo..hi].iter().map(|x| x.position.c[a]).max().unwrap();
        assert_eq!((c.bounds.min.c[a], c.bounds.max.c[a]), (lo_a, hi_a));
        assert!(hi_a - lo_a <= c.bounds.max.c[axis] - c.bounds.min.c[axis]);
    }
    assert_kd_tree(entries, lo, mid);
    assert_kd_tree(entries, mid + 1, hi);
}

#[test]
fn kd_tree_test_random() {
    for seed in 1..=20 {
        let mut rng = XorShiftRng::seed_from_u64(seed);
        let mut entries = vec![];
        for i in 0..100 {
            entries.push(KdEntry::new(random_point(&mut rng), i));
        }
        let tree = KdTree::new(entries.clone());
        assert_kd_tree(tree.as_slice(), 0, tree.as_slice().len());
        for i in 1..10 {
            let query = random_point(&mut rng);
            let mut found = pairs(&tree.nearest(query, i));
            let mut iter_found = pairs(&tree.nearest_iter(query).into_vec(&tree));
            let mut actual: Vec<(i64, usize)> =
                entries.iter().map(|x| (square_distance(query, x.position()), x.value)).collect();
            actual.sort();
            // Distances come out in order; among equal distances the order
            // is the tree's slot order, so compare pairs as sorted sets.
            for w in iter_found.windows(2) {
                assert!(w[0].0 <= w[1].0);
            }
            let n = i.min(entries.len());
            assert_eq!(found.iter().map(|p| p.0).collect::<Vec<_>>(), actual[0..n].iter().map(|p| p.0).collect::<Vec<_>>());
            if n == actual.len() || actual[n - 1].0 != actual[n].0 {
                found.sort();
                assert_eq!(&found[..], &actual[0..n]);
            }
            iter_found.sort();
            assert_eq!(&iter_found, &actual);
        }
    }
}

#[test]
fn nearest_equals_linear_scan_for_all_k() {
    let mut rng = XorShiftRng::seed_from_u64(7);
    let mut entries = vec![];
    for i in 0..40 {
        entries.push(KdEntry::new(random_point(&mut rng), i));
    }
    // A few repeated points, so that equal distances occur.
    entries.push(KdEntry::new(Vec3::new(5, 5, 5), 40));
    entries.push(KdEntry::new(Vec3::new(5, 5, 5), 41));
    entries.push(KdEntry::new(Vec3::new(5, 5, 5), 42));
    let tree = KdTree::new(entries.clone());
    let stored: Vec<KdEntry> = tree.as_slice().to_vec();
    for _ in 0..5 {
        let query = random_point(&mut rng);
        for k in 0..(entries.len() + 5) {
            let found = tree.nearest(query, k);
            let scanned = nearest_linear(&stored, query, k);
            assert_eq!(found, scanned);
            assert_eq!(found.len(), k.min(entries.len()));
        }
    }
}

#[test]
fn tree_holds_every_entry_once() {
    let mut rng = XorShiftRng::seed_from_u64(3);
    let entries: Vec<KdEntry> = (0..64).map(|i| KdEntry::new(random_point(&mut rng), i)).collect();
    let tree = KdTree::new(entries);
    let mut values: Vec<usize> = tree.as_slice().iter().map(|e| *e.value()).collect();
    values.sort();
    assert_eq!(values, (0..64).collect::<Vec<usize>>());
}

#[test]
fn empty_tree_finds_nothing() {
    let tree = KdTree::new(vec![]);
    assert!(tree.nearest(Vec3::new(1, 2, 3), 4).is_empty());
}

#[test]
fn stream_yields_each_entry_once_in_order() {
    let mut rng = XorShiftRng::seed_from_u64(11);
    let entries: Vec<KdEntry> = (0..50).map(|i| KdEntry::new(random_point(&mut rng), i)).collect();
    let tree = KdTree::new(entries);
    let query = random_point(&mut rng);
    let mut it = tree.nearest_iter(query);
    let mut seen = vec![];
    while let Some(n) = it.next(&tree) {
        seen.push(n);
    }
    assert_eq!(seen.len(), 50);
    for w in seen.windows(2) {
        assert!(w[0].distance <= w[1].distance);
    }
    let mut slots: Vec<usize> = seen.iter().map(|n| n.index).collect();
    slots.sort();
    assert_eq!(slots, (0..50).collect::<Vec<usize>>());
    for k in 0..55 {
        let found = tree.nearest(query, k);
        assert_eq!(&found[..], &seen[..k.min(seen.len())]);
    }
    assert!(it.next(&tree).is_none());
}

#[test]
fn nearest_with_zero_count_is_empty() {
    let entries: Vec<KdEntry> = (0..5).map(|i| KdEntry::new(Vec3::new(i, 0, 0), i as usize)).collect();
    let tree = KdTree::new(entries);
    assert!(tree.nearest(Vec3::new(0, 0, 0), 0).is_empty());
    assert_eq!(tree.nearest(Vec3::new(0, 0, 0), 10).len(), 5);
}
