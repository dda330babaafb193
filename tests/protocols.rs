use zcr_wsn::leach::{Leach, PROBABILITY_SCALE};
use zcr_wsn::node::{Node, Point, INITIAL_NODE_ENERGY_PJ};
use zcr_wsn::simulator::{Protocol, Simulator};
use zcr_wsn::zcr::{relay_choice, select_cluster_heads, Zcr};

fn sim_at(points: &[(i64, i64)]) -> Simulator {
    let ps: Vec<Point> = points.iter().map(|&(x, y)| Point { x, y }).collect();
    Simulator::with_positions(&ps)
}

fn alive_count(s: &Simulator) -> usize {
    s.nodes.iter().filter(|n| n.is_alive).count()
}

#[test]
fn constructors_validate_probability() {
    assert!(Leach::new(0).is_none());
    assert!(Leach::new(1_000_001).is_none());
    assert!(Zcr::new(0, 50_000, 50_000).is_none());
    assert!(Zcr::new(2_000_000, 50_000, 50_000).is_none());
    let l = Leach::new(100_000).unwrap();
    assert_eq!(l.cycle_length_rounds, 10);
    let l = Leach::new(300_000).unwrap();
    assert_eq!(l.cycle_length_rounds, 3);
    let z = Zcr::new(100_000, 50_000, 50_000).unwrap();
    assert_eq!(z.diagonal_cm, 70_710);
    assert_eq!(Zcr::new(100_000, 30_000, 40_000).unwrap().diagonal_cm, 50_000);
    assert!(Zcr::new(100_000, 100, 40_000).is_none());
    assert_eq!(Leach::new(1).unwrap().name(), "LEACH");
    assert_eq!(z.name(), "ZCR");
}

#[test]
fn election_threshold_rises_and_saturates() {
    let mut l = Leach::new(100_000).unwrap();
    l.update_election_threshold(0);
    assert_eq!((l.election_threshold_num, l.election_threshold_den), (100_000, 1_000_000));
    l.update_election_threshold(5);
    assert_eq!((l.election_threshold_num, l.election_threshold_den), (100_000, 500_000));
    l.update_election_threshold(9);
    assert_eq!((l.election_threshold_num, l.election_threshold_den), (1, 1));
    l.update_election_threshold(10);
    assert_eq!((l.election_threshold_num, l.election_threshold_den), (100_000, 1_000_000));
}

#[test]
fn certain_probability_elects_every_eligible_node() {
    let mut sim = sim_at(&[(1000, 1000), (2000, 1000), (30_000, 30_000), (40_000, 1000)]);
    sim.nodes[3].remaining_energy_pj = 0;
    let mut l = Leach::new(PROBABILITY_SCALE as u32).unwrap();
    let draws = vec![999_999, 0, 500_000, 3];
    l.run_round_with_draws(&mut sim, &draws);
    assert!(sim.nodes[0].is_cluster_head);
    assert!(sim.nodes[1].is_cluster_head);
    assert!(sim.nodes[2].is_cluster_head);
    assert!(!sim.nodes[3].is_cluster_head);
    assert!(!sim.nodes[3].is_alive);
    assert_eq!(sim.alive_node_count, 3);
}

#[test]
fn election_members_join_nearest_head() {
    let mut sim = sim_at(&[(25_000, 25_000), (25_000, 26_000), (25_000, 45_000), (25_000, 44_000)]);
    let mut l = Leach::new(100_000).unwrap();
    // round 0: threshold 0.1; draws below 100_000 elect
    l.run_round_with_draws(&mut sim, &vec![0, 999_999, 99_999, 100_000]);
    assert!(sim.nodes[0].is_cluster_head && sim.nodes[2].is_cluster_head);
    assert!(!sim.nodes[0].is_eligible_for_ch && !sim.nodes[2].is_eligible_for_ch);
    assert_eq!(sim.nodes[1].cluster_head_id, Some(0));
    assert_eq!(sim.nodes[3].cluster_head_id, Some(2));
    assert_eq!(sim.nodes[0].cluster_member_ids, vec![1]);
    assert_eq!(sim.nodes[2].cluster_member_ids, vec![3]);
    // member 1 sends 10 m: 4000 * 50_000 + 4000 * 1_000_000 / 1000
    assert_eq!(sim.nodes[1].remaining_energy_pj, INITIAL_NODE_ENERGY_PJ - 204_000_000);
    // head 0: one packet received and aggregated, then 0 m to the base station
    assert_eq!(sim.nodes[0].remaining_energy_pj, INITIAL_NODE_ENERGY_PJ - 220_000_000 - 200_000_000);
}

#[test]
fn no_head_round_changes_no_energy() {
    let mut sim = sim_at(&[(1000, 1000), (2000, 2000)]);
    let mut l = Leach::new(100_000).unwrap();
    l.run_round_with_draws(&mut sim, &vec![999_999, 999_999]);
    assert!(sim.nodes.iter().all(|n| !n.is_cluster_head && n.remaining_energy_pj == INITIAL_NODE_ENERGY_PJ));
}

#[test]
fn equal_scores_pick_first_scanned() {
    let sim = sim_at(&[(9_000, 10_000), (11_000, 10_000), (10_000, 10_000)]);
    let centroids = vec![Point { x: 10_000, y: 10_000 }, Point { x: 10_000, y: 10_000 }];
    let sel = select_cluster_heads(&sim.nodes, &centroids, &vec![0, 0, 1], 70_710);
    assert_eq!(sel, vec![Some(0), Some(2)]);
    let mut nodes = sim.nodes.clone();
    nodes[0].remaining_energy_pj -= 1;
    let sel = select_cluster_heads(&nodes, &centroids, &vec![0, 0, 1], 70_710);
    assert_eq!(sel, vec![Some(1), Some(2)]);
    nodes[0].is_alive = false;
    nodes[1].is_alive = false;
    let sel = select_cluster_heads(&nodes, &centroids, &vec![0, 0, 1], 70_710);
    assert_eq!(sel, vec![None, Some(2)]);
}

#[test]
fn far_head_relays_through_nearer_near_head() {
    // node 0: 50 m from the base station (near zone); node 1: 150 m (far zone),
    // 100 m from node 0.
    let mut sim = sim_at(&[(25_000, 30_000), (25_000, 40_000)]);
    let mut z = Zcr::new(100_000, 50_000, 50_000).unwrap();
    let centroids = vec![Point { x: 25_000, y: 30_000 }, Point { x: 25_000, y: 40_000 }];
    assert_eq!(relay_choice(&sim.nodes, 1, &vec![0]), Some(0));
    z.run_round_with_clustering(&mut sim, &centroids, &vec![0, 1]);
    assert_eq!(z.near_zone_heads, vec![0]);
    assert_eq!(z.far_zone_heads, vec![1]);
    // relay: multipath over 100 m, not 150 m direct (2_832_500_000)
    assert_eq!(sim.nodes[1].remaining_energy_pj, INITIAL_NODE_ENERGY_PJ - 720_000_000);
    // near head: relayed packet received and aggregated, then 50 m to the sink
    assert_eq!(sim.nodes[0].remaining_energy_pj, INITIAL_NODE_ENERGY_PJ - 220_000_000 - 300_000_000);
}

#[test]
fn far_head_without_near_head_sends_direct() {
    let mut sim = sim_at(&[(25_000, 40_000), (25_000, 41_000)]);
    let mut z = Zcr::new(100_000, 50_000, 50_000).unwrap();
    let centroids = vec![Point { x: 25_000, y: 40_000 }];
    z.run_round_with_clustering(&mut sim, &centroids, &vec![0, 0]);
    assert!(z.near_zone_heads.is_empty());
    assert_eq!(z.far_zone_heads, vec![0]);
    assert_eq!(sim.nodes[1].cluster_head_id, Some(0));
    assert_eq!(sim.nodes[0].cluster_member_ids, vec![1]);
    assert_eq!(relay_choice(&sim.nodes, 0, &vec![]), None);
    assert_eq!(
        sim.nodes[0].remaining_energy_pj,
        INITIAL_NODE_ENERGY_PJ - 220_000_000 - 2_832_500_000
    );
    assert_eq!(sim.nodes[1].remaining_energy_pj, INITIAL_NODE_ENERGY_PJ - 204_000_000);
}

#[test]
fn relay_not_taken_when_direct_is_closer() {
    // far head at 100 m from the sink; the near head is 110 m from it.
    let sim = sim_at(&[(25_000, 20_000), (25_000, 35_000), (25_000, 36_000)]);
    assert_eq!(relay_choice(&sim.nodes, 1, &vec![0]), None);
    // first of two equally near heads wins
    assert_eq!(relay_choice(&sim.nodes, 2, &vec![1, 1]), Some(1));
}

#[test]
fn depleted_node_dies_and_count_follows() {
    let mut sim = sim_at(&[(1000, 1000), (2000, 2000), (3000, 3000)]);
    sim.nodes[1].remaining_energy_pj = 0;
    let mut z = Zcr::new(500_000, 50_000, 50_000).unwrap();
    sim.update(&mut z);
    assert_eq!(sim.current_round, 1);
    assert!(!sim.nodes[1].is_alive);
    assert_eq!(sim.alive_node_count, 2);
    assert_eq!(alive_count(&sim), 2);
}

#[test]
fn zcr_rounds_keep_invariants() {
    let mut sim = Simulator::new(50_000, 50_000, 50).unwrap();
    let mut z = Zcr::new(100_000, 50_000, 50_000).unwrap();
    for _ in 0..200 {
        let before: Vec<(i128, bool)> = sim.nodes.iter().map(|n| (n.remaining_energy_pj, n.is_alive)).collect();
        sim.update(&mut z);
        assert_eq!(sim.alive_node_count, alive_count(&sim));
        for (n, (e, alive)) in sim.nodes.iter().zip(before) {
            assert!(n.remaining_energy_pj <= e);
            assert!(alive || !n.is_alive);
        }
    }
    assert_eq!(sim.current_round, 200);
}

#[test]
fn leach_rounds_keep_invariants() {
    let mut sim = Simulator::new(50_000, 50_000, 50).unwrap();
    let mut l = Leach::new(100_000).unwrap();
    for _ in 0..200 {
        let before: Vec<(i128, bool)> = sim.nodes.iter().map(|n| (n.remaining_energy_pj, n.is_alive)).collect();
        sim.update(&mut l);
        assert_eq!(sim.alive_node_count, alive_count(&sim));
        for (n, (e, alive)) in sim.nodes.iter().zip(before) {
            assert!(n.remaining_energy_pj <= e);
            assert!(alive || !n.is_alive);
        }
    }
}

#[test]
fn default_network_runs_within_round_budget() {
    let mut sim = Simulator::new(50_000, 50_000, 100).unwrap();
    let mut l = Leach::new(100_000).unwrap();
    let cap = 2000;
    let mut rounds = 0;
    let mut last_alive = sim.alive_node_count;
    while rounds < cap && sim.alive_node_count > 0 {
        sim.update(&mut l);
        rounds += 1;
        assert!(sim.alive_node_count <= last_alive);
        last_alive = sim.alive_node_count;
    }
    assert!(rounds <= cap);
    assert_eq!(sim.current_round, rounds);
    assert_eq!(sim.alive_node_count, alive_count(&sim));
    // nodes far from the sink run out well before the cap
    assert!(sim.alive_node_count < 100);
}

#[test]
fn random_election_elects_some_but_not_all() {
    let mut sim = Simulator::new(50_000, 50_000, 200).unwrap();
    let mut l = Leach::new(100_000).unwrap();
    sim.update(&mut l);
    let heads = sim.nodes.iter().filter(|n| n.is_cluster_head).count();
    assert!(heads > 0);
    assert!(heads < 200);
    assert_eq!(sim.current_round, 1);
}

#[test]
fn certain_probability_round_through_driver() {
    let mut sim = sim_at(&[(25_000, 25_000), (25_000, 26_000), (30_000, 30_000)]);
    sim.nodes[2].remaining_energy_pj = -5;
    let mut l = Leach::new(PROBABILITY_SCALE as u32).unwrap();
    sim.update(&mut l);
    assert!(sim.nodes[0].is_cluster_head && sim.nodes[1].is_cluster_head);
    assert!(!sim.nodes[2].is_cluster_head && !sim.nodes[2].is_alive);
    assert_eq!(sim.nodes[2].remaining_energy_pj, -5);
    assert!(sim.nodes[0].cluster_member_ids.is_empty());
    // each head pays one transmission to the sink: 0 m and 10 m
    assert_eq!(sim.nodes[0].remaining_energy_pj, INITIAL_NODE_ENERGY_PJ - 200_000_000);
    assert_eq!(sim.nodes[1].remaining_energy_pj, INITIAL_NODE_ENERGY_PJ - 204_000_000);
    assert_eq!(sim.alive_node_count, 2);
}

#[test]
fn zone_round_is_noop_without_alive_nodes() {
    let mut sim = sim_at(&[(1000, 1000), (2000, 2000)]);
    for n in sim.nodes.iter_mut() {
        n.is_alive = false;
    }
    sim.alive_node_count = 0;
    let mut z = Zcr::new(100_000, 50_000, 50_000).unwrap();
    sim.update(&mut z);
    assert_eq!(z.num_cluster_heads, 0);
    assert!(sim.nodes.iter().all(|n| n.remaining_energy_pj == INITIAL_NODE_ENERGY_PJ && !n.is_cluster_head));
}
