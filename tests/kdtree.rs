use matto::kdtree::{Axis, KdTree, Node};
use matto::point::PointU32;

fn p(x: u32, y: u32) -> PointU32 {
    PointU32::new(x, y)
}

fn sq(a: &PointU32, b: &PointU32) -> u128 {
    a.squared_dist(b)
}

#[test]
fn test_from_vector() {
    let points = vec![
        (PointU32::new(1, 2), "p(1,2)"),
        (PointU32::new(0, 0), "to be replaced"),
        (PointU32::new(4, 5), "root"),
        (PointU32::new(7, 8), "p(7,8)"),
        (PointU32::new(5, 2), "p(5,2)"),
    ];

    let mut kdtree = KdTree::from_vector(points);

    assert_eq!(
        kdtree.add(PointU32::new(0, 0), "p(0,0)"),
        Some("to be replaced")
    );
    assert!(kdtree.add(PointU32::new(2, 9), "p(2,9)").is_none());
    assert!(kdtree.add(PointU32::new(2, 8), "p(2,8)").is_none());

    let expected = Node {
        median: PointU32::new(4, 5),
        axis: Axis::X,
        value: "root",

        left: Some(Box::new(Node {
            median: PointU32::new(1, 2),
            axis: Axis::Y,
            value: "p(1,2)",
            left: Some(Box::new(Node::new(PointU32::new(0, 0), "p(0,0)", Axis::X))),
            right: Some(Box::new(Node {
                median: PointU32::new(2, 9),
                axis: Axis::X,
                value: "p(2,9)",

                left: Some(Box::new(Node::new(PointU32::new(2, 8), "p(2,8)", Axis::Y))),
                right: None,
            })),
        })),

        right: Some(Box::new(Node {
            median: PointU32::new(7, 8),
            axis: Axis::Y,
            value: "p(7,8)",
            left: Some(Box::new(Node::new(PointU32::new(5, 2), "p(5,2)", Axis::X))),
            right: None,
        })),
    };
    assert_eq!(kdtree.len(), 7);
    assert_eq!(kdtree.root(), Some(&expected));
}

#[test]
fn test_basic_nearest_neighbor() {
    let mut kdtree = KdTree::new();
    kdtree.add(PointU32::new(3, 0), "foo");
    kdtree.add(PointU32::new(4, 6), "bar");
    kdtree.add(PointU32::new(4, 5), "baz");
    kdtree.add(PointU32::new(100, 100), "quux");

    assert_eq!(
        kdtree.nearest_neighbor(PointU32::new(3, 0)),
        Some((&PointU32::new(3, 0), &"foo"))
    );

    assert_eq!(
        kdtree.nearest_neighbor(PointU32::new(3, 1)),
        Some((&PointU32::new(3, 0), &"foo"))
    );

    assert_eq!(
        kdtree.nearest_neighbor(PointU32::new(2, 5)),
        Some((&PointU32::new(4, 5), &"baz"))
    );

    assert_eq!(
        kdtree.nearest_neighbor(PointU32::new(0, 0)),
        Some((&PointU32::new(3, 0), &"foo"))
    );
}

#[test]
fn test_nearest_neighbor_comes_after_candidate() {
    let mut kdtree = KdTree::new();
    kdtree.add(PointU32::new(0, 1), ());
    kdtree.add(PointU32::new(0, 0), ());
    kdtree.add(PointU32::new(0, 2), ());

    assert_eq!(
        kdtree.nearest_neighbor(PointU32::new(1, 2)),
        Some((&PointU32::new(0, 2), &()))
    );
}

#[test]
fn build_collapses_duplicates_last_wins() {
    let pairs = vec![
        (p(1, 2), "a"),
        (p(0, 0), "first"),
        (p(1, 2), "b"),
        (p(3, 3), "c"),
        (p(0, 0), "second"),
        (p(0, 0), "third"),
    ];
    let tree = KdTree::from_vector(pairs);
    assert_eq!(tree.len(), 3);
    assert!(!tree.is_empty());
    assert_eq!(tree.nearest_neighbor(p(0, 0)), Some((&p(0, 0), &"third")));
    assert_eq!(tree.nearest_neighbor(p(1, 2)), Some((&p(1, 2), &"b")));
    assert_eq!(tree.nearest_neighbor(p(3, 3)), Some((&p(3, 3), &"c")));
}

#[test]
fn build_then_insert_example() {
    let pairs = vec![
        (p(1, 2), "p12"),
        (p(0, 0), "dup0"),
        (p(4, 5), "root"),
        (p(7, 8), "p78"),
        (p(5, 2), "p52"),
    ];
    let mut tree = KdTree::from_vector(pairs);
    assert_eq!(tree.len(), 5);
    assert_eq!(tree.add(p(0, 0), "p00"), Some("dup0"));
    assert_eq!(tree.len(), 5);
    assert_eq!(tree.add(p(2, 9), "p29"), None);
    assert_eq!(tree.add(p(2, 8), "p28"), None);
    assert_eq!(tree.len(), 7);
}

#[test]
fn reinsert_keeps_len_and_replaces_value() {
    let mut tree = KdTree::new();
    assert_eq!(tree.add(p(5, 5), 1), None);
    assert_eq!(tree.add(p(6, 5), 2), None);
    assert_eq!(tree.len(), 2);
    assert_eq!(tree.add(p(5, 5), 3), Some(1));
    assert_eq!(tree.len(), 2);
    assert_eq!(tree.nearest_neighbor(p(5, 5)), Some((&p(5, 5), &3)));
}

#[test]
fn empty_index_and_zero_k() {
    let tree: KdTree<u8> = KdTree::new();
    assert!(tree.is_empty());
    assert_eq!(tree.len(), 0);
    assert!(tree.nearest_neighbors(p(1, 1), 0).is_empty());
    assert!(tree.nearest_neighbors(p(1, 1), 5).is_empty());
    assert_eq!(tree.nearest_neighbor(p(1, 1)), None);

    let built: KdTree<u8> = KdTree::from_vector(Vec::new());
    assert!(built.is_empty());

    let mut one = KdTree::new();
    one.add(p(2, 2), 7u8);
    assert!(one.nearest_neighbors(p(1, 1), 0).is_empty());
}

#[test]
fn k_nearest_counts_and_order() {
    let mut tree = KdTree::new();
    for (i, (x, y)) in [(0, 0), (10, 0), (0, 10), (3, 4), (6, 8), (1, 1)].iter().enumerate() {
        tree.add(p(*x, *y), i);
    }
    let q = p(0, 0);
    let r = tree.nearest_neighbors(q, 3);
    let got: Vec<(PointU32, usize)> = r.iter().map(|(a, b)| (**a, **b)).collect();
    assert_eq!(got, vec![(p(0, 0), 0), (p(1, 1), 5), (p(3, 4), 3)]);
    assert_eq!(tree.nearest_neighbors(q, 6).len(), 6);
    assert_eq!(tree.nearest_neighbors(q, 100).len(), 6);
}

#[test]
fn k_nearest_matches_brute_force() {
    let mut seed: u64 = 12345;
    let mut next = || {
        seed = seed.wrapping_mul(6364136223846793005).wrapping_add(1442695040888963407);
        ((seed >> 33) % 10) as u32
    };
    for round in 0..300 {
        let n = 1 + (round % 9);
        let mut pts: Vec<PointU32> = Vec::new();
        for _ in 0..n {
            let c = p(next(), next());
            if !pts.contains(&c) {
                pts.push(c);
            }
        }
        let pairs: Vec<(PointU32, ())> = pts.iter().map(|c| (*c, ())).collect();
        let tree = if round % 2 == 0 {
            KdTree::from_vector(pairs)
        } else {
            let mut t = KdTree::new();
            for (c, v) in pairs {
                t.add(c, v);
            }
            t
        };
        let q = p(next(), next());
        for k in 0..(pts.len() + 2) {
            let got = tree.nearest_neighbors(q, k);
            assert_eq!(got.len(), k.min(pts.len()));
            let mut brute: Vec<u128> = pts.iter().map(|c| sq(c, &q)).collect();
            brute.sort();
            brute.truncate(k);
            let dists: Vec<u128> = got.iter().map(|(c, _)| sq(c, &q)).collect();
            assert_eq!(dists, brute);
        }
        let nn = tree.nearest_neighbor(q).unwrap();
        let best = pts.iter().map(|c| sq(c, &q)).min().unwrap();
        assert_eq!(sq(nn.0, &q), best);
    }
}

#[test]
fn squared_distance_extremes() {
    let a = p(0, 0);
    let b = p(u32::MAX, u32::MAX);
    let m = u32::MAX as u128;
    assert_eq!(a.squared_dist(&b), 2 * m * m);
    assert_eq!(p(3, 4).squared_dist(&p(0, 0)), 25);
    assert_eq!(Axis::X.next(), Axis::Y);
    assert_eq!(Axis::Y.next(), Axis::X);
}

#[test]
fn build_selects_over_repeated_points() {
    let pairs = vec![
        (p(0, 0), "a"),
        (p(0, 0), "b"),
        (p(5, 5), "c"),
        (p(0, 0), "d"),
    ];
    let tree = KdTree::from_vector(pairs);
    assert_eq!(tree.len(), 2);
    let expected = Node {
        median: p(0, 0),
        axis: Axis::X,
        value: "d",
        left: None,
        right: Some(Box::new(Node::new(p(5, 5), "c", Axis::Y))),
    };
    assert_eq!(tree.root(), Some(&expected));
    assert!(tree.contains_key(p(5, 5)));
    assert!(!tree.contains_key(p(1, 0)));
}
