use matto::kdtree::Axis;
use matto::point::PointU32;
use matto::retention::KSmallest;
use matto::select::select_by_axis;
use matto::utils::{build_hashmap_counter, split_element_at};

fn p(x: u32, y: u32) -> PointU32 {
    PointU32::new(x, y)
}

#[test]
fn select_puts_rank_in_place() {
    let mut v = vec![
        (p(5, 1), 'a'),
        (p(1, 9), 'b'),
        (p(3, 3), 'c'),
        (p(3, 1), 'd'),
        (p(9, 0), 'e'),
        (p(0, 7), 'f'),
    ];
    select_by_axis(&mut v, 2, Axis::X);
    assert_eq!(v[2], (p(3, 1), 'd'));
    for i in 0..2 {
        assert!((v[i].0.x, v[i].0.y) <= (3, 1));
    }
    for i in 3..v.len() {
        assert!((v[i].0.x, v[i].0.y) >= (3, 1));
    }

    select_by_axis(&mut v, 0, Axis::Y);
    assert_eq!(v[0], (p(9, 0), 'e'));

    let mut w = vec![(p(2, 2), 0), (p(2, 2), 1), (p(2, 2), 2), (p(2, 2), 3)];
    select_by_axis(&mut w, 3, Axis::X);
    assert_eq!(w.len(), 4);
    let mut tags: Vec<i32> = w.iter().map(|e| e.1).collect();
    tags.sort();
    assert_eq!(tags, vec![0, 1, 2, 3]);
}

#[test]
fn select_secondary_key_breaks_ties() {
    let mut v = vec![(p(4, 9), 0), (p(4, 1), 1), (p(4, 5), 2)];
    select_by_axis(&mut v, 1, Axis::X);
    assert_eq!(v[1], (p(4, 5), 2));
    let mut w = vec![(p(9, 4), 0), (p(1, 4), 1), (p(5, 4), 2)];
    select_by_axis(&mut w, 0, Axis::Y);
    assert_eq!(w[0], (p(1, 4), 1));
}

#[test]
fn ksmallest_keeps_smallest_keys() {
    let mut k = KSmallest::new(3);
    assert_eq!(k.peek_max(), None);
    for (key, item) in [(5u128, 'a'), (1, 'b'), (9, 'c'), (3, 'd'), (2, 'e')] {
        k.push(key, item);
    }
    assert!(k.is_full());
    assert_eq!(k.len(), 3);
    assert_eq!(k.peek_max(), Some(3));
    assert_eq!(k.into_sorted_vec(), vec![(1, 'b'), (2, 'e'), (3, 'd')]);

    let mut none: KSmallest<char> = KSmallest::new(0);
    none.push(1, 'x');
    assert_eq!(none.len(), 0);
}

#[test]
fn split_element_at_parts() {
    let (l, e, r) = split_element_at(vec![1, 2, 3, 4, 5], 2);
    assert_eq!(l, vec![1, 2]);
    assert_eq!(e, Some(3));
    assert_eq!(r, vec![4, 5]);

    let (l, e, r) = split_element_at(vec![7], 0);
    assert!(l.is_empty() && r.is_empty());
    assert_eq!(e, Some(7));

    let (l, e, r) = split_element_at(Vec::<u8>::new(), 0);
    assert!(l.is_empty() && r.is_empty());
    assert_eq!(e, None);
}

#[test]
fn hashmap_counter_counts_each_key() {
    let m = build_hashmap_counter(vec![3u64, 1, 3, 7, 3, 1]);
    assert_eq!(m.len(), 3);
    assert_eq!(m[&3], 3);
    assert_eq!(m[&1], 2);
    assert_eq!(m[&7], 1);
    assert!(build_hashmap_counter(Vec::<u32>::new()).is_empty());
}

#[test]
fn default_tree_is_empty() {
    let t: matto::kdtree::KdTree<u8> = Default::default();
    assert!(t.is_empty());
    assert!(t.root().is_none());
}
