use covertree::{Cover, CoverTree, Point, DEFAULT_SPAN_FACTOR};

fn brute_nearest(points: &[i64], q: i64) -> u64 {
    points.iter().map(|p| p.distance(q)).min().unwrap()
}

/// A small deterministic generator of test points.
fn lcg(seed: &mut u64) -> i64 {
    *seed = seed.wrapping_mul(6364136223846793005).wrapping_add(1442695040888963407);
    ((*seed >> 33) % 2001) as i64 - 1000
}

#[test]
fn new_tree_is_empty() {
    let tree: CoverTree<i32> = CoverTree::new();
    assert_eq!(tree.len(), 0);
    assert!(tree.is_empty());
    assert_eq!(tree.span_factor(), DEFAULT_SPAN_FACTOR);
}

#[test]
fn default_tree_is_empty() {
    let tree: CoverTree<i64> = Default::default();
    assert!(tree.is_empty());
    assert_eq!(tree.span_factor(), DEFAULT_SPAN_FACTOR);
}

#[test]
fn with_span_factor_keeps_factor() {
    let tree: CoverTree<i32> = CoverTree::with_span_factor(3);
    assert_eq!(tree.span_factor(), 3);
    assert!(tree.is_empty());
}

#[test]
fn from_items_counts_points() {
    let tree: CoverTree<i32> = CoverTree::from_items(vec![10, 13, 35, 46]);
    assert_eq!(tree.len(), 4);
    assert!(!tree.is_empty());
}

#[test]
fn find_nearest_doc_example() {
    let mut tree: CoverTree<i32> = CoverTree::from_items(vec![10, 13, 35, 46]);
    assert_eq!(tree.find_nearest(12), Some(13));
    assert_eq!(tree.len(), 4);
}

#[test]
fn insert_doc_example() {
    let mut tree: CoverTree<i32> = CoverTree::new();
    tree.insert(130);
    tree.insert(152);
    assert_eq!(tree.len(), 2);
    assert_eq!(tree.find_nearest(140), Some(130));
}

#[test]
fn insert_all_doc_example() {
    let mut tree: CoverTree<i32> = CoverTree::new();
    tree.insert_all(vec![10, 13, 35, 46]);
    assert_eq!(tree.len(), 4);
}

#[test]
fn remove_doc_example() {
    let mut tree: CoverTree<i32> = CoverTree::from_items(vec![10, 13, 35, 46]);
    assert_eq!(tree.remove(13), Some(13));
    assert_eq!(tree.len(), 3);
    assert_eq!(tree.find_nearest(13), Some(10));
}

#[test]
fn remove_all_doc_example() {
    let mut tree: CoverTree<i32> = CoverTree::from_items(vec![10, 13, 35, 46]);
    tree.remove_all(vec![10, 23, 46]);
    assert_eq!(tree.len(), 2);
    assert_eq!(tree.find_nearest(0), Some(13));
    assert_eq!(tree.find_nearest(100), Some(35));
}

#[test]
fn clear_doc_example() {
    let mut tree: CoverTree<i32> = CoverTree::from_items(vec![10, 13, 35, 46]);
    tree.clear();
    assert!(tree.is_empty());
    assert_eq!(tree.find_nearest(1), None);
}

#[test]
fn find_nearest_on_empty_tree() {
    let mut tree: CoverTree<i64> = CoverTree::new();
    assert_eq!(tree.find_nearest(5), None);
}

#[test]
fn remove_absent_point() {
    let mut tree: CoverTree<i64> = CoverTree::from_items(vec![1, 2, 3]);
    assert_eq!(tree.remove(7), None);
    assert_eq!(tree.len(), 3);
    let mut empty: CoverTree<i64> = CoverTree::new();
    assert_eq!(empty.remove(7), None);
}

#[test]
fn remove_root_point_keeps_others() {
    // The first point inserted is the root.
    let mut tree: CoverTree<i64> = CoverTree::from_items(vec![0, 1, 2, 100, 101]);
    assert_eq!(tree.remove(0), Some(0));
    assert_eq!(tree.len(), 4);
    for p in [1, 2, 100, 101] {
        assert_eq!(tree.find_nearest(p), Some(p));
    }
    assert_eq!(tree.find_nearest(-50), Some(1));
}

#[test]
fn remove_inner_node_keeps_its_children() {
    let mut tree: CoverTree<i64> = CoverTree::from_items(vec![10, 13, 35, 46]);
    for p in [10, 13, 35, 46] {
        assert_eq!(tree.remove(p), Some(p));
        assert_eq!(tree.remove(p), None);
    }
    assert!(tree.is_empty());
    assert_eq!(tree.find_nearest(0), None);
}

#[test]
fn duplicates_are_counted() {
    let mut tree: CoverTree<i32> = CoverTree::from_items(vec![5, 5, 5]);
    assert_eq!(tree.len(), 3);
    assert_eq!(tree.remove(5), Some(5));
    assert_eq!(tree.len(), 2);
    assert_eq!(tree.find_nearest(100), Some(5));
    tree.remove_all(vec![5, 5, 5]);
    assert!(tree.is_empty());
}

#[test]
fn remove_undoes_insert() {
    let mut tree: CoverTree<i64> = CoverTree::from_items(vec![3, 9, 27]);
    tree.insert(81);
    assert_eq!(tree.len(), 4);
    assert_eq!(tree.remove(81), Some(81));
    assert_eq!(tree.len(), 3);
    assert_eq!(tree.find_nearest(80), Some(27));
}

#[test]
fn nearest_after_insert_is_at_distance_zero() {
    let mut tree: CoverTree<i64> = CoverTree::from_items(vec![-40, 17, 300]);
    tree.insert(55);
    let r = tree.find_nearest(55).unwrap();
    assert_eq!(r.distance(55), 0);
}

#[test]
fn far_points_promote_leaves() {
    let mut tree: CoverTree<i64> = CoverTree::new();
    let points = vec![0, 1, 3, 7, 1 << 20, -(1 << 40), i64::MAX, i64::MIN, 5, 1 << 62];
    tree.insert_all(points.clone());
    assert_eq!(tree.len(), points.len());
    for &p in &points {
        assert_eq!(tree.find_nearest(p), Some(p));
    }
    // 5 and 7 are both at distance 1 from 6.
    assert_eq!(tree.find_nearest(6).unwrap().distance(6), 1);
    assert_eq!(tree.find_nearest(-(1 << 38)), Some(0));
    assert_eq!(tree.find_nearest((1 << 62) - 5), Some(1 << 62));
    assert_eq!(tree.find_nearest(i64::MAX - 5), Some(i64::MAX));
}

#[test]
fn random_points_match_brute_force() {
    let mut seed = 7u64;
    let mut points: Vec<i64> = Vec::new();
    let mut tree: CoverTree<i64> = CoverTree::with_span_factor(2);
    for _ in 0..300 {
        let p = lcg(&mut seed);
        points.push(p);
        tree.insert(p);
    }
    assert_eq!(tree.len(), 300);
    for _ in 0..200 {
        let q = lcg(&mut seed) * 2;
        let r = tree.find_nearest(q).unwrap();
        assert!(points.contains(&r));
        assert_eq!(r.distance(q), brute_nearest(&points, q));
    }
    // Remove half of the points and search again.
    for k in 0..150 {
        let p = points[k];
        assert_eq!(tree.remove(p), Some(p));
    }
    let rest = &points[150..];
    assert_eq!(tree.len(), rest.len());
    for _ in 0..200 {
        let q = lcg(&mut seed);
        let r = tree.find_nearest(q).unwrap();
        assert!(rest.contains(&r));
        assert_eq!(r.distance(q), brute_nearest(rest, q));
    }
}

#[test]
fn larger_span_factor_finds_nearest() {
    let mut seed = 99u64;
    let mut points: Vec<i64> = Vec::new();
    let mut tree: CoverTree<i64> = CoverTree::with_span_factor(5);
    for _ in 0..200 {
        let p = lcg(&mut seed) * 1000;
        points.push(p);
        tree.insert(p);
    }
    for _ in 0..100 {
        let q = lcg(&mut seed) * 997;
        let r = tree.find_nearest(q).unwrap();
        assert_eq!(r.distance(q), brute_nearest(&points, q));
    }
}

#[test]
fn point_distance_for_integers() {
    assert_eq!(3i32.distance(-4), 7);
    assert_eq!((-4i32).distance(3), 7);
    assert_eq!(i64::MIN.distance(i64::MAX), u64::MAX);
    assert_eq!(i32::MIN.distance(i32::MAX), u32::MAX as u64);
    assert!(5i64.same_as(&5));
    assert!(!5i64.same_as(&6));
    assert!((-1i32).same_as(&-1));
}

#[test]
fn remove_all_undoes_insert_all() {
    let mut tree: CoverTree<i64> = CoverTree::from_items(vec![4, 8, 15]);
    tree.insert_all(vec![16, 23, 42, 8]);
    assert_eq!(tree.len(), 7);
    tree.remove_all(vec![16, 23, 42, 8]);
    assert_eq!(tree.len(), 3);
    for p in [4, 8, 15] {
        assert_eq!(tree.find_nearest(p), Some(p));
    }
    assert_eq!(tree.find_nearest(40), Some(15));
}

#[test]
fn clone_keeps_points() {
    let mut tree: CoverTree<i32> = CoverTree::from_items(vec![10, 13, 35, 46]);
    let mut copy = tree.clone();
    assert!(copy == tree);
    assert_eq!(copy.len(), 4);
    assert_eq!(copy.find_nearest(36), Some(35));
    copy.remove(35);
    assert!(copy != tree);
    assert_eq!(tree.find_nearest(36), Some(35));
    assert_eq!(copy.find_nearest(36), Some(46));
}

#[test]
fn trees_of_different_factors_differ() {
    let a: CoverTree<i32> = CoverTree::with_span_factor(2);
    let b: CoverTree<i32> = CoverTree::with_span_factor(3);
    let c: CoverTree<i32> = CoverTree::with_span_factor(2);
    assert!(a != b);
    assert!(a == c);
}

#[test]
fn small_span_factor_holds_one_point() {
    let mut tree: CoverTree<i64> = CoverTree::with_span_factor(0);
    assert_eq!(tree.span_factor(), 0);
    assert!(tree.is_empty());
    assert_eq!(tree.find_nearest(3), None);
    tree.insert(9);
    assert_eq!(tree.len(), 1);
    assert_eq!(tree.find_nearest(3), Some(9));
    assert_eq!(tree.remove(9), Some(9));
    assert!(tree.is_empty());
}

#[test]
fn new_trees_compare_equal() {
    let a: CoverTree<i32> = CoverTree::new();
    let b: CoverTree<i32> = Default::default();
    let c: CoverTree<i32> = CoverTree::with_span_factor(DEFAULT_SPAN_FACTOR);
    assert!(a == b);
    assert!(a == c);
}

#[test]
fn cover_keeps_given_point_on_tie() {
    let mut c = Cover::new(5i64, 1);
    assert_eq!(c.find_nearest(4, Some(3)), 3);
    assert_eq!(c.find_nearest(4, Some(2)), 5);
    assert_eq!(c.find_nearest(4, None), 5);
    assert_eq!(c.remove(5), None);
    assert!(c == Cover::new(5i64, 1));
}

#[test]
fn insert_far_point_in_chain() {
    // Points far apart build a chain of promotions.
    let mut tree: CoverTree<i64> = CoverTree::new();
    let mut x: i64 = 1;
    let mut points = Vec::new();
    for _ in 0..40 {
        points.push(x);
        tree.insert(x);
        x *= 3;
        if x > (1 << 55) {
            break;
        }
    }
    for &p in &points {
        assert_eq!(tree.find_nearest(p), Some(p));
    }
    assert_eq!(tree.len(), points.len());
}

#[test]
fn far_insert_promotes_deep_leaf() {
    // 0 holds 1, which holds 3: the root's only child is not a leaf.
    let mut tree: CoverTree<i64> = CoverTree::from_items(vec![0, 1, 3]);
    tree.insert(1000);
    tree.insert(-5000);
    let points = [0, 1, 3, 1000, -5000];
    assert_eq!(tree.len(), points.len());
    for p in points {
        assert_eq!(tree.find_nearest(p), Some(p));
    }
    assert_eq!(tree.find_nearest(600), Some(1000));
    // 1 and 3 are both at distance 1 from 2.
    assert_eq!(tree.find_nearest(2).unwrap().distance(2), 1);
}
