use vp_tree::{Distance, Querry, VpTree};

/// Values of the form `x.y` scaled by ten, so `3.4` is `34`.
fn scaled(values: &[i64]) -> Vec<i64> {
    values.iter().map(|v| v * 10).collect()
}

fn baseline_linear_search<'a>(data: &'a [i64], target: &i64, k: usize) -> Vec<&'a i64> {
    let mut all: Vec<&i64> = data.iter().collect();
    all.sort_by_key(|x| target.distance(*x));
    all.truncate(k);
    all
}

#[test]
fn test_nn() {
    let vp_tree = VpTree::new(scaled(&[1, 2, 3, 4, 5]));
    let target: i64 = 34;
    let nearest = vp_tree.nearest_neighbor(&target).unwrap();
    assert_eq!(*nearest, 30);
}

#[test]
fn test_1() {
    let vp_tree = VpTree::new(scaled(&[1, 2, 3, 4, 5]));
    let target: i64 = 34;
    let nearest = vp_tree.querry(&target, Querry::k_nearest_neighbors(2).sorted());
    assert_eq!(nearest.len(), 2);
    assert_eq!(*nearest[0], 30);
    assert_eq!(*nearest[1], 40);
}

#[test]
fn test_empty_tree() {
    let points: Vec<i64> = vec![];
    let vp_tree = VpTree::new(points);
    let target: i64 = 35;
    let nearest = vp_tree.querry(&target, Querry::k_nearest_neighbors(2).sorted());
    assert_eq!(nearest.len(), 0);
}

#[test]
fn test_random_points() {
    for _ in 0..10000 {
        let points: Vec<i64> = (0..1000).map(|_| fastrand::i64(0..1_000_000_000)).collect();
        let vp_tree = VpTree::new(points.clone());
        let target: i64 = 500_000_000;
        let nearest = vp_tree.querry(&target, Querry::k_nearest_neighbors(10).sorted());
        let baseline_nearest = baseline_linear_search(&points, &target, 10);
        assert_eq!(nearest, baseline_nearest);
    }
}

#[test]
fn search_in_radius_test() {
    let points: Vec<i64> = (0..1000).collect();
    let vp_tree = VpTree::new(points.clone());
    let target: i64 = 500;
    let radius: u64 = 10;
    let results = vp_tree.querry(&target, Querry::neighbors_within_radius(radius).sorted());
    let expected: Vec<&i64> = points.iter().filter(|p| target.distance(*p) <= radius).collect();
    assert_eq!(results.len(), expected.len());
    for r in results.iter() {
        assert!(expected.contains(r));
    }
}
