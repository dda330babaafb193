use zcr_wsn::clustering::{nearest_centroid, KMeans};
use zcr_wsn::node::{Node, Point};

fn nodes_at(points: &[(i64, i64)]) -> Vec<Node> {
    let ps: Vec<Point> = points.iter().map(|&(x, y)| Point { x, y }).collect();
    Node::from_positions(&ps)
}

#[test]
fn single_cluster_centroid_is_mean() {
    let nodes = nodes_at(&[(0, 0), (100, 0), (0, 300), (500, 500)]);
    let mut km = KMeans::new(1);
    km.fit(&nodes);
    assert_eq!(km.centroids(), &vec![Point { x: 150, y: 200 }]);
    assert_eq!(km.clusters(), &vec![0, 0, 0, 0]);
}

#[test]
fn single_cluster_mean_rounds_down() {
    let nodes = nodes_at(&[(0, 0), (1, 1), (1, 2)]);
    let mut km = KMeans::new(1);
    let it = km.fit_from_seeds(&nodes, &vec![2]);
    assert!(it <= 2);
    assert_eq!(km.centroids(), &vec![Point { x: 0, y: 1 }]);
}

#[test]
fn optimal_seeds_converge_in_one_iteration() {
    let nodes = nodes_at(&[(1000, 1000), (90_000, 90_000), (1000, 90_000)]);
    let mut km = KMeans::new(3);
    let it = km.fit_from_seeds(&nodes, &vec![2, 0, 1]);
    assert_eq!(it, 1);
    assert_eq!(
        km.centroids(),
        &vec![Point { x: 1000, y: 90_000 }, Point { x: 1000, y: 1000 }, Point { x: 90_000, y: 90_000 }]
    );
    assert_eq!(km.clusters(), &vec![1, 2, 0]);
}

#[test]
fn two_groups_separate() {
    let nodes = nodes_at(&[(0, 0), (10, 0), (0, 10), (10_000, 10_000), (10_010, 10_000)]);
    let mut km = KMeans::new(2);
    let it = km.fit_from_seeds(&nodes, &vec![0, 1]);
    assert!(it < 100);
    let c = km.clusters();
    assert_eq!(c[0], c[1]);
    assert_eq!(c[1], c[2]);
    assert_eq!(c[3], c[4]);
    assert_ne!(c[0], c[3]);
    let far = km.centroids()[c[3]];
    assert_eq!(far, Point { x: 10_005, y: 10_000 });
}

#[test]
fn nearest_centroid_prefers_lowest_index_on_ties() {
    let cs = vec![Point { x: 0, y: 0 }, Point { x: 20, y: 0 }, Point { x: 10, y: 10 }];
    assert_eq!(nearest_centroid(Point { x: 10, y: 0 }, &cs), 0);
    assert_eq!(nearest_centroid(Point { x: 11, y: 0 }, &cs), 1);
    assert_eq!(nearest_centroid(Point { x: 10, y: 9 }, &cs), 2);
}

#[test]
fn random_seeds_give_valid_clustering() {
    let nodes = Node::create_wsn(50_000, 50_000, 60);
    let mut km = KMeans::new(6);
    km.fit(&nodes);
    assert_eq!(km.centroids().len(), 6);
    assert_eq!(km.clusters().len(), 60);
    assert!(km.clusters().iter().all(|&c| c < 6));
}

#[test]
fn random_seeds_are_distinct_nodes() {
    let nodes = nodes_at(&[(0, 0), (5000, 0), (10_000, 0), (0, 5000), (0, 10_000), (7000, 7000)]);
    let mut km = KMeans::new(6);
    km.fit(&nodes);
    let mut seen = km.clusters().clone();
    seen.sort();
    assert_eq!(seen, vec![0, 1, 2, 3, 4, 5]);
}

#[test]
fn two_separated_nodes_get_their_own_centroids() {
    let nodes = nodes_at(&[(1000, 1000), (40_000, 40_000)]);
    let mut km = KMeans::new(2);
    km.fit(&nodes);
    let c = km.clusters().clone();
    assert_ne!(c[0], c[1]);
    for i in 0..2 {
        assert_eq!(km.centroids()[c[i]], nodes[i].position);
    }
}
