use raytracer_core::bvh::{Bvh, BvhForest, BvhTree};
use raytracer_core::triangle::Triangle;
use raytracer_core::vec::Vec3;

fn grid_triangles(n: i64) -> Vec<Triangle> {
    let mut tris = vec![];
    for i in 0..n {
        let x = (i % 7) * 10;
        let y = (i / 7) * 10;
        let z = (i * 37) % 11;
        tris.push(Triangle::new([
            Vec3::new(x, y, z),
            Vec3::new(x + 3, y, z + 1),
            Vec3::new(x, y + 4, z + 2),
        ]));
    }
    tris
}

fn leaves_of(t: &BvhTree, out: &mut Vec<usize>) {
    match t {
        BvhTree::Empty => {}
        BvhTree::Leaf { tri, .. } => out.push(*tri),
        BvhTree::Node { left, right, .. } => {
            leaves_of(left, out);
            leaves_of(right, out);
        }
    }
}

fn check_flat(bvh: &Bvh, tris: &[Triangle], n: usize) {
    let mut leaves = bvh.leaves().to_vec();
    leaves.sort();
    assert_eq!(leaves, (0..n).collect::<Vec<usize>>());
    let nodes = bvh.nodes();
    for e in nodes {
        for j in e.child_nodes.0..e.child_nodes.1 {
            let c = nodes[j].bounds;
            for a in 0..3 {
                assert!(e.bounds.min.c[a] <= c.min.c[a] && c.max.c[a] <= e.bounds.max.c[a]);
            }
        }
        for l in e.child_leaves.0..e.child_leaves.1 {
            for v in tris[bvh.leaves()[l]].vertices() {
                for a in 0..3 {
                    assert!(e.bounds.min.c[a] <= v.c[a] && v.c[a] <= e.bounds.max.c[a]);
                }
            }
        }
    }
}

#[test]
fn subdivided_hierarchy_holds_each_triangle_once() {
    let tris = grid_triangles(40);
    let forest = BvhForest::new(&tris);
    assert_eq!(forest.trees.len(), 40);
    let tree = forest.subdivide(&tris);
    let bvh = Bvh::new(&tree, &tris);
    check_flat(&bvh, &tris, 40);
    let b = bvh.bounds(&tris);
    assert_eq!((b.min.c, b.max.c), ([0, 0, 0], [63, 54, 12]));
}

#[test]
fn contracted_and_hybrid_hierarchies_hold_each_triangle_once() {
    let tris = grid_triangles(33);
    let tree = BvhForest::new(&tris).contract(&tris);
    check_flat(&Bvh::new(&tree, &tris), &tris, 33);
    let tree = BvhForest::new(&tris).hybrid(&tris);
    check_flat(&Bvh::new(&tree, &tris), &tris, 33);
}

#[test]
fn clustering_round_halves_tree_count_and_keeps_leaves() {
    for n in [2, 3, 10, 17] {
        let tris = grid_triangles(n);
        let mut forest = BvhForest::new(&tris);
        forest.contract_once(&tris);
        assert_eq!(forest.trees.len() as i64, (n + 1) / 2);
        let mut leaves = vec![];
        for t in &forest.trees {
            leaves_of(t, &mut leaves);
        }
        leaves.sort();
        assert_eq!(leaves, (0..n as usize).collect::<Vec<usize>>());
    }
}

#[test]
fn subdivision_never_leaves_a_half_empty() {
    for n in [2, 3, 5, 250] {
        let tris = grid_triangles(n);
        let (l, r) = BvhForest::new(&tris).subdivide_once(&tris);
        assert!(l.trees.len() >= 1 && r.trees.len() >= 1);
        assert_eq!(l.trees.len() + r.trees.len(), n as usize);
        assert!(l.trees.len() >= n as usize / 100 && r.trees.len() >= n as usize / 100);
    }
    // All centres equal: the split is clamped away from the ends.
    let same: Vec<Triangle> = (0..4)
        .map(|_| Triangle::new([Vec3::new(0, 0, 0), Vec3::new(1, 0, 0), Vec3::new(0, 1, 0)]))
        .collect();
    let (l, r) = BvhForest::new(&same).subdivide_once(&same);
    assert!(l.trees.len() >= 1 && r.trees.len() >= 1);
}

#[test]
fn empty_and_single_forests() {
    let none: Vec<Triangle> = vec![];
    let tree = BvhForest::new(&none).subdivide(&none);
    assert!(matches!(tree, BvhTree::Empty));
    let one = grid_triangles(1);
    let tree = BvhForest::new(&one).subdivide(&one);
    assert!(matches!(tree, BvhTree::Leaf { tri: 0, .. }));
}

#[test]
fn clustering_round_joins_the_cheapest_pair_first() {
    let tri = |x: i64| Triangle::new([Vec3::new(x, 0, 0), Vec3::new(x + 1, 0, 0), Vec3::new(x, 1, 0)]);
    // Triangles 1 and 2 are closest together.
    let tris = vec![tri(0), tri(10), tri(11), tri(30)];
    let mut forest = BvhForest::new(&tris);
    forest.contract_once(&tris);
    assert_eq!(forest.trees.len(), 2);
    let mut first = vec![];
    leaves_of(&forest.trees[0], &mut first);
    first.sort();
    assert_eq!(first, vec![1, 2]);
    match &forest.trees[0] {
        BvhTree::Node { bounds, .. } => assert_eq!((bounds.min.c, bounds.max.c), ([10, 0, 0], [12, 1, 0])),
        _ => panic!("expected a node"),
    }
}

fn has_pair(t: &BvhTree, a: usize, b: usize) -> bool {
    match t {
        BvhTree::Node { left, right, .. } => {
            let pair = matches!((&**left, &**right), (BvhTree::Leaf { tri: x, .. }, BvhTree::Leaf { tri: y, .. })
                if (*x, *y) == (a, b) || (*x, *y) == (b, a));
            pair || has_pair(left, a, b) || has_pair(right, a, b)
        }
        _ => false,
    }
}

#[test]
fn contract_and_hybrid_keep_the_cheapest_pair() {
    let tri = |x: i64| Triangle::new([Vec3::new(x, 0, 0), Vec3::new(x + 1, 0, 0), Vec3::new(x, 1, 0)]);
    let tris = vec![tri(0), tri(40), tri(10), tri(11), tri(70)];
    let t = BvhForest::new(&tris).contract(&tris);
    assert!(has_pair(&t, 2, 3));
    let t = BvhForest::new(&tris).hybrid(&tris);
    assert!(has_pair(&t, 2, 3));
    let t = BvhForest::new(&tris).subdivide(&tris);
    let mut leaves = vec![];
    leaves_of(&t, &mut leaves);
    leaves.sort();
    assert_eq!(leaves, vec![0, 1, 2, 3, 4]);
}

#[test]
fn empty_tree_flattens_to_the_empty_box() {
    let none: Vec<Triangle> = vec![];
    let bvh = Bvh::new(&BvhTree::new(), &none);
    let b = bvh.bounds(&none);
    assert!(b.min.c.iter().all(|c| *c == raytracer_core::vec::COORD_MAX));
    assert!(b.max.c.iter().all(|c| *c == -raytracer_core::vec::COORD_MAX));
}
