use zcr_wsn::node::{dist_sq, isqrt, Node, Point, INITIAL_NODE_ENERGY_PJ};
use zcr_wsn::simulator::Simulator;

#[test]
fn squared_distance_and_root() {
    let a = Point { x: 0, y: 0 };
    let b = Point { x: 300, y: 400 };
    assert_eq!(dist_sq(a, b), 250_000);
    assert_eq!(isqrt(250_000), 500);
    assert_eq!(isqrt(250_001), 500);
    assert_eq!(isqrt(249_999), 499);
    assert_eq!(isqrt(0), 0);
    assert_eq!(isqrt(5_000_000_000), 70_710);
}

#[test]
fn new_node_is_fresh() {
    let n = Node::new(7, Point { x: 25_000, y: 28_000 });
    assert_eq!(n.id, 7);
    assert_eq!(n.remaining_energy_pj, INITIAL_NODE_ENERGY_PJ);
    assert!(n.is_alive);
    assert!(!n.is_cluster_head);
    assert!(n.is_eligible_for_ch);
    assert_eq!(n.distance_sq_to_base_station, 9_000_000);
    assert_eq!(n.cluster_head_id, None);
    assert!(n.cluster_member_ids.is_empty());
}

#[test]
fn random_deployment_stays_in_area() {
    let nodes = Node::create_wsn(50_000, 20_000, 200);
    assert_eq!(nodes.len(), 200);
    for (i, n) in nodes.iter().enumerate() {
        assert_eq!(n.id, i);
        assert!(n.position.x >= 100 && n.position.x < 50_000);
        assert!(n.position.y >= 100 && n.position.y < 20_000);
        let dx = n.position.x - 25_000;
        let dy = n.position.y - 25_000;
        assert_eq!(n.distance_sq_to_base_station, (dx * dx + dy * dy) as u64);
    }
    assert!(nodes.iter().any(|n| n.position != nodes[0].position));
}

#[test]
fn simulator_rejects_bad_setup() {
    assert!(Simulator::new(0, 50_000, 10).is_none());
    assert!(Simulator::new(50_000, 100, 10).is_none());
    assert!(Simulator::new(50_000, 50_000, 0).is_none());
    let s = Simulator::new(50_000, 50_000, 10).unwrap();
    assert_eq!(s.nodes.len(), 10);
    assert_eq!(s.alive_node_count, 10);
    assert_eq!(s.current_round, 0);
}
