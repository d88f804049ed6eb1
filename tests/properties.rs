use vp_tree::{Distance, HeapItem, OptionalUsize, Querry, VpTree, UNBOUNDED_DISTANCE, push_bounded};

fn random_values(n: usize, range: i64) -> Vec<i64> {
    (0..n).map(|_| fastrand::i64(0..range)).collect()
}

fn sorted_copy(v: &[i64]) -> Vec<i64> {
    let mut s = v.to_vec();
    s.sort();
    s
}

fn values(r: &[&i64]) -> Vec<i64> {
    r.iter().map(|x| **x).collect()
}

fn distances(target: i64, r: &[&i64]) -> Vec<u64> {
    r.iter().map(|x| target.distance(*x)).collect()
}

#[test]
fn round_trip_keeps_every_item() {
    let items: Vec<i64> = vec![5, 3, 3, 9, -2, 7, 3, 0, 11, -2];
    let tree = VpTree::new(items.clone());
    assert_eq!(tree.len(), items.len());
    assert_eq!(sorted_copy(tree.items()), sorted_copy(&items));
    assert_eq!(sorted_copy(&tree.into_items()), sorted_copy(&items));
}

#[test]
fn nearest_matches_brute_force_minimum() {
    for _ in 0..200 {
        let items = random_values(1 + fastrand::usize(0..60), 1000);
        let tree = VpTree::new(items.clone());
        let target = fastrand::i64(-100..1100);
        let found = tree.nearest_neighbor(&target).unwrap();
        let best = items.iter().map(|x| target.distance(x)).min().unwrap();
        assert_eq!(target.distance(found), best);
    }
}

#[test]
fn k_nearest_matches_sorted_scan_for_every_k() {
    for _ in 0..20 {
        let items = random_values(40, 100_000);
        let tree = VpTree::new(items.clone());
        let target = fastrand::i64(0..100_000);
        let mut scan: Vec<u64> = items.iter().map(|x| target.distance(x)).collect();
        scan.sort();
        for k in 1..=items.len() {
            let r = tree.querry(&target, Querry::k_nearest_neighbors(k).sorted());
            assert_eq!(distances(target, &r), scan[..k].to_vec());
        }
    }
}

#[test]
fn radius_query_returns_exactly_the_items_within() {
    let items: Vec<i64> = (0..300).map(|i| (i * 37) % 211).collect();
    let tree = VpTree::new(items.clone());
    let target: i64 = 100;
    for radius in [0u64, 1, 5, 17, 300] {
        let r = tree.querry(&target, Querry::neighbors_within_radius(radius));
        let mut expected: Vec<i64> = items.iter().copied().filter(|x| target.distance(x) <= radius).collect();
        expected.sort();
        assert_eq!(sorted_copy(&values(&r)), expected);
    }
}

#[test]
fn exclusive_radius_query_drops_distance_zero() {
    let items: Vec<i64> = vec![10, 10, 11, 12, 9, 20, 10];
    let tree = VpTree::new(items);
    let r = tree.querry(&10, Querry::neighbors_within_radius(2).exclusive());
    assert_eq!(sorted_copy(&values(&r)), vec![9, 11, 12]);
    let r = tree.querry(&10, Querry::neighbors_within_radius(0).exclusive());
    assert!(r.is_empty());
    let r = tree.querry(&10, Querry::neighbors_within_radius(0));
    assert_eq!(values(&r), vec![10, 10, 10]);
}

#[test]
fn sorted_output_is_non_decreasing() {
    let items = random_values(500, 10_000);
    let tree = VpTree::new(items);
    let target: i64 = 4321;
    let r = tree.querry(&target, Querry::k_nearest_neighbors_within_radius(100, 2000).sorted());
    let d = distances(target, &r);
    assert!(d.windows(2).all(|w| w[0] <= w[1]));
    assert!(d.iter().all(|x| *x <= 2000));
}

#[test]
fn repeated_queries_agree() {
    let items = random_values(300, 1000);
    let tree = VpTree::new(items);
    let q = Querry::k_nearest_neighbors(25);
    let first = sorted_copy(&values(&tree.querry(&512, q)));
    for _ in 0..5 {
        assert_eq!(sorted_copy(&values(&tree.querry(&512, q))), first);
    }
}

fn split_build(items: Vec<i64>, depth: usize) -> VpTree<i64> {
    if depth == 0 || items.len() < 2 {
        return VpTree::new(items);
    }
    let (pivot, left, right) = VpTree::partition(items);
    VpTree::join(pivot, split_build(left, depth - 1), split_build(right, depth - 1)).unwrap()
}

#[test]
fn split_and_joined_build_answers_like_sequential_build() {
    let items: Vec<i64> = (0..400).map(|i| i * 3 + (i % 7)).collect();
    let sequential = VpTree::new(items.clone());
    let joined = split_build(items.clone(), 3);
    assert_eq!(sorted_copy(joined.items()), sorted_copy(&items));
    for target in [-5i64, 0, 1, 250, 601, 1500] {
        for q in [
            Querry::k_nearest_neighbors(7),
            Querry::neighbors_within_radius(20),
            Querry::k_nearest_neighbors_within_radius(3, 4).exclusive(),
        ] {
            let a = sorted_copy(&values(&sequential.querry(&target, q)));
            let b = sorted_copy(&values(&joined.querry(&target, q)));
            assert_eq!(a, b);
        }
        assert_eq!(sequential.nearest_neighbor(&target), joined.nearest_neighbor(&target));
    }
}

#[test]
fn partition_splits_around_the_pivot() {
    let items: Vec<i64> = (0..11).collect();
    let (pivot, left, right) = VpTree::partition(items);
    assert_eq!(left.len(), 5);
    assert_eq!(right.len(), 5);
    let far_left = left.iter().map(|x| pivot.distance(x)).max().unwrap();
    let near_right = right.iter().map(|x| pivot.distance(x)).min().unwrap();
    assert!(far_left <= near_right);
}

#[test]
fn join_refuses_unbalanced_or_misordered_parts() {
    let unbalanced = VpTree::join(0i64, VpTree::new(vec![1, 2]), VpTree::new(vec![3]));
    assert!(unbalanced.is_none());
    let misordered = VpTree::join(0i64, VpTree::new(vec![9]), VpTree::new(vec![1]));
    assert!(misordered.is_none());
    let good = VpTree::join(0i64, VpTree::new(vec![1]), VpTree::new(vec![9])).unwrap();
    assert_eq!(good.items(), &[0, 1, 9][..]);
    let leaf = VpTree::join(4i64, VpTree::new(vec![]), VpTree::new(vec![])).unwrap();
    assert_eq!(leaf.nearest_neighbor(&100), Some(&4));
}

#[test]
fn example_five_values_two_nearest() {
    let tree = VpTree::new(vec![10i64, 20, 30, 40, 50]);
    let r = tree.querry(&34, Querry::k_nearest_neighbors(2).sorted());
    assert_eq!(values(&r), vec![30, 40]);
}

#[test]
fn example_empty_tree_answers_nothing() {
    let tree: VpTree<i64> = VpTree::new(vec![]);
    assert_eq!(tree.nearest_neighbor(&7), None);
    assert_eq!(tree.nearest_neighbor_exclusive(&7), None);
    assert!(tree.querry(&7, Querry::default()).is_empty());
    assert!(tree.querry(&7, Querry::neighbors_within_radius(100)).is_empty());
    assert!(tree.items().is_empty());
}

#[test]
fn example_radius_ten_around_five_hundred() {
    let items: Vec<u64> = (0..1000).collect();
    let tree = VpTree::new(items);
    let r = tree.querry(&500u64, Querry::neighbors_within_radius(10).sorted());
    assert_eq!(r.len(), 21);
    let mut got: Vec<u64> = r.iter().map(|x| **x).collect();
    got.sort();
    assert_eq!(got, (490..=510).collect::<Vec<u64>>());
}

#[test]
fn exclusive_nearest_skips_exact_match() {
    let tree = VpTree::new(vec![1i64, 5, 8, 5, 12]);
    assert_eq!(tree.nearest_neighbor(&5), Some(&5));
    assert_eq!(tree.nearest_neighbor_exclusive(&5), Some(&8));
    let same = VpTree::new(vec![3i64, 3, 3]);
    assert_eq!(same.nearest_neighbor_exclusive(&3), None);
    assert_eq!(same.nearest_neighbor(&3), Some(&3));
}

#[test]
fn max_items_larger_than_tree_returns_all_qualifying() {
    let tree = VpTree::new(vec![4i64, 8, 15, 16, 23, 42]);
    let r = tree.querry(&16, Querry::k_nearest_neighbors(100));
    assert_eq!(r.len(), 6);
    let r = tree.querry(&16, Querry::default().max_items(100).within_radius(8).sorted());
    assert_eq!(values(&r), vec![16, 15, 23, 8]);
}

#[test]
fn equal_items_all_count() {
    let tree = VpTree::new(vec![7i64; 50]);
    let r = tree.querry(&7, Querry::k_nearest_neighbors(20));
    assert_eq!(r.len(), 20);
    assert!(r.iter().all(|x| **x == 7));
}

#[test]
fn querry_builders_set_their_fields() {
    let d = Querry::default();
    assert_eq!(d.max_items, usize::MAX);
    assert_eq!(d.max_distance, UNBOUNDED_DISTANCE);
    assert!(!d.exclusive && !d.sorted);
    let q = Querry::new(3, 9, true, false);
    assert_eq!((q.max_items, q.max_distance, q.exclusive, q.sorted), (3, 9, true, false));
    let q = Querry::k_nearest_neighbors(4);
    assert_eq!((q.max_items, q.max_distance), (4, UNBOUNDED_DISTANCE));
    let q = Querry::k_nearest_neighbors_within_radius(5, 6);
    assert_eq!((q.max_items, q.max_distance), (5, 6));
    let q = Querry::neighbors_within_radius(11);
    assert_eq!((q.max_items, q.max_distance), (usize::MAX, 11));
    let q = q.exclusive().sorted().max_items(2).within_radius(1);
    assert_eq!((q.max_items, q.max_distance, q.exclusive, q.sorted), (2, 1, true, true));
}

#[test]
fn optional_usize_round_trips() {
    assert_eq!(OptionalUsize::none().as_option(), None);
    assert_eq!(OptionalUsize::new_unchecked(0).as_option(), Some(0));
    assert_eq!(OptionalUsize::new_unchecked(41).as_option(), Some(41));
}

#[test]
fn bounded_buffer_keeps_the_nearest() {
    let mut buf: Vec<HeapItem> = Vec::new();
    assert_eq!(push_bounded(&mut buf, HeapItem { index: 0, distance: 5 }, 3), 0);
    assert_eq!(push_bounded(&mut buf, HeapItem { index: 1, distance: 2 }, 3), 0);
    assert_eq!(push_bounded(&mut buf, HeapItem { index: 2, distance: 9 }, 3), 2);
    assert_eq!(push_bounded(&mut buf, HeapItem { index: 3, distance: 5 }, 3), 2);
    let got: Vec<(usize, u64)> = buf.iter().map(|h| (h.index, h.distance)).collect();
    assert_eq!(got, vec![(1, 2), (0, 5), (3, 5)]);
}

#[test]
fn distances_of_integers() {
    assert_eq!(3u64.distance(&10), 7);
    assert_eq!(10u64.distance(&3), 7);
    assert_eq!(0u64.distance(&u64::MAX), u64::MAX);
    assert_eq!(i64::MIN.distance(&i64::MAX), u64::MAX);
    assert_eq!((-4i64).distance(&6), 10);
    assert_eq!((-4i64).distance_heuristic(&6), 10);
}

#[test]
fn large_distances_do_not_overflow_pruning() {
    let items: Vec<u64> = vec![0, u64::MAX, 1, u64::MAX - 1, u64::MAX / 2];
    let tree = VpTree::new(items);
    assert_eq!(tree.nearest_neighbor(&u64::MAX), Some(&u64::MAX));
    let r = tree.querry(&0u64, Querry::default().sorted());
    assert_eq!(r.len(), 5);
    assert_eq!(*r[4], u64::MAX);
}

fn positions_in(tree: &VpTree<i64>, r: &[&i64]) -> Vec<usize> {
    r.iter()
        .map(|x| tree.items().iter().position(|y| std::ptr::eq(y, *x)).unwrap())
        .collect()
}

#[test]
fn ties_at_the_cut_are_settled_the_same_way_every_time() {
    let tree = VpTree::new(vec![4i64, 6, 6, 4, 9, 1]);
    let q = Querry::k_nearest_neighbors(3);
    let first = positions_in(&tree, &tree.querry(&5, q));
    for _ in 0..5 {
        assert_eq!(positions_in(&tree, &tree.querry(&5, q)), first);
    }
    let mut sorted = positions_in(&tree, &tree.querry(&5, q.sorted()));
    let mut unsorted = first.clone();
    sorted.sort();
    unsorted.sort();
    assert_eq!(sorted, unsorted);
    let nearest = tree.nearest_neighbor(&5).unwrap();
    assert_eq!(positions_in(&tree, &[nearest]), positions_in(&tree, &[tree.nearest_neighbor(&5).unwrap()]));
}

#[test]
fn worker_budget_splits_with_the_larger_share_left() {
    assert_eq!(vp_tree::split_budget(1), (1, 0));
    assert_eq!(vp_tree::split_budget(2), (1, 1));
    assert_eq!(vp_tree::split_budget(7), (4, 3));
    assert_eq!(vp_tree::split_budget(0), (0, 0));
}
