use theatron::metrics::MetricsCollector;
use theatron::time::{ms_to_sim_time, sim_time_to_ms};
use theatron::types::NodeId;

#[test]
fn each_counter_moves_alone() {
    let mut m = MetricsCollector::new();
    m.record_tx(NodeId(1));
    m.record_rx(NodeId(2));
    m.record_rx(NodeId(3));
    m.record_collision();
    m.record_collision();
    m.record_collision();
    m.record_capture();
    m.record_airtime(17);
    m.record_airtime(0);
    assert_eq!(m.total_tx, 1);
    assert_eq!(m.total_rx, 2);
    assert_eq!(m.total_collisions, 3);
    assert_eq!(m.total_captures, 1);
    assert_eq!(m.total_airtime_us, 17);
    assert_eq!(m.node_tx_count(NodeId(1)), 1);
    assert_eq!(m.node_tx_count(NodeId(2)), 0);
    assert_eq!(m.node_rx_count(NodeId(2)), 1);
    assert_eq!(m.node_rx_count(NodeId(3)), 1);
    assert_eq!(m.node_rx_count(NodeId(1)), 0);
}

#[test]
fn default_collector_is_empty() {
    let m = MetricsCollector::default();
    assert_eq!(m.total_tx, 0);
    assert_eq!(m.total_rx, 0);
    assert_eq!(m.total_collisions, 0);
    assert_eq!(m.total_captures, 0);
    assert_eq!(m.total_airtime_us, 0);
    assert_eq!(m.node_tx_count(NodeId(u32::MAX)), 0);
}

#[test]
fn room_is_reported() {
    let mut m = MetricsCollector::new();
    assert!(m.can_record_tx(NodeId(1)));
    assert!(m.can_record_rx(NodeId(1)));
    assert!(m.can_record_collision());
    assert!(m.can_record_capture());
    assert!(m.can_record_airtime(u64::MAX));
    m.total_tx = u64::MAX;
    m.total_rx = u64::MAX;
    m.total_collisions = u64::MAX;
    m.total_captures = u64::MAX;
    m.total_airtime_us = 1;
    assert!(!m.can_record_tx(NodeId(1)));
    assert!(!m.can_record_rx(NodeId(1)));
    assert!(!m.can_record_collision());
    assert!(!m.can_record_capture());
    assert!(!m.can_record_airtime(u64::MAX));
    assert!(m.can_record_airtime(u64::MAX - 1));
}

#[test]
fn milliseconds_wrap_at_their_width() {
    let wrap = 0x1_0000_0000u64 * 1_000;
    assert_eq!(sim_time_to_ms(wrap - 1), u32::MAX);
    assert_eq!(sim_time_to_ms(wrap), 0);
    assert_eq!(sim_time_to_ms(wrap + 2_500), 2);
    assert_eq!(sim_time_to_ms(ms_to_sim_time(u32::MAX)), u32::MAX);
}

#[test]
fn accessors_show_the_totals() {
    let mut m = MetricsCollector::new();
    m.record_tx(NodeId(1));
    m.record_rx(NodeId(2));
    m.record_rx(NodeId(3));
    m.record_collision();
    m.record_collision();
    m.record_collision();
    for _ in 0..4 {
        m.record_capture();
    }
    m.record_airtime(17);
    assert_eq!(m.total_tx_count(), 1);
    assert_eq!(m.total_rx_count(), 2);
    assert_eq!(m.total_collision_count(), 3);
    assert_eq!(m.total_capture_count(), 4);
    assert_eq!(m.total_airtime(), 17);
}
