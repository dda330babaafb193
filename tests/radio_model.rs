use zcr_wsn::radio::{
    aggregation_energy, receive_energy, transmit_energy, DATA_PACKET_SIZE_BITS, FS_MULTIPATH_THRESHOLD_CM,
    FS_MULTIPATH_THRESHOLD_SQ,
};

#[test]
fn threshold_distance_uses_free_space() {
    let at = transmit_energy(DATA_PACKET_SIZE_BITS, FS_MULTIPATH_THRESHOLD_SQ);
    let free_space = 4000u128 * 50_000 + (4000u128 * FS_MULTIPATH_THRESHOLD_SQ as u128) / 1000;
    assert_eq!(at, free_space);
    assert_eq!(at, 507_651_600);
    assert_eq!(FS_MULTIPATH_THRESHOLD_SQ, FS_MULTIPATH_THRESHOLD_CM * FS_MULTIPATH_THRESHOLD_CM);
}

#[test]
fn beyond_threshold_uses_multipath() {
    assert_eq!(transmit_energy(DATA_PACKET_SIZE_BITS, FS_MULTIPATH_THRESHOLD_SQ + 1), 507_610_905);
    // 100 m = 10_000 cm
    assert_eq!(transmit_energy(DATA_PACKET_SIZE_BITS, 100_000_000), 720_000_000);
}

#[test]
fn zero_distance_costs_electronics_only() {
    assert_eq!(transmit_energy(DATA_PACKET_SIZE_BITS, 0), 200_000_000);
    assert_eq!(transmit_energy(0, 1_000_000), 0);
}

#[test]
fn receive_and_aggregation_costs() {
    assert_eq!(receive_energy(DATA_PACKET_SIZE_BITS), 200_000_000);
    assert_eq!(aggregation_energy(DATA_PACKET_SIZE_BITS), 20_000_000);
    assert_eq!(receive_energy(1), 50_000);
    assert_eq!(aggregation_energy(1), 5_000);
}
