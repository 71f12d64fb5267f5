use theatron::channel::{Channel, ChannelConfig};
use theatron::types::{ChannelEvent, NodeId, Transmission};

fn tx(sf: u8, frequency: u32, duration_us: u64, tx_power_dbm: i8) -> Transmission {
    Transmission {
        payload: vec![0xC0, 0xDE],
        sf,
        bandwidth: 125_000,
        coding_rate: 5,
        frequency,
        duration_us,
        tx_power_dbm,
    }
}

fn flags(ch: &mut Channel) -> Vec<(u32, bool, bool)> {
    let mut all: Vec<(u32, bool, bool)> = ch
        .drain_completed()
        .iter()
        .map(|(id, collided, captured, _)| (id.0, *collided, *captured))
        .collect();
    all.sort();
    all
}

#[test]
fn started_event_carries_sender_and_time() {
    let mut ch = Channel::new();
    let event = ch.begin_transmission(NodeId(4), &tx(9, 868_300_000, 10, 14), 7);
    assert_eq!(
        event,
        ChannelEvent::TransmissionStarted {
            sender: NodeId(4),
            sf: 9,
            frequency: 868_300_000,
            time: 7,
        }
    );
}

#[test]
fn completed_event_carries_end_time_and_collision() {
    let mut ch = Channel::new();
    ch.begin_transmission(NodeId(1), &tx(7, 1, 100, 14), 0);
    ch.begin_transmission(NodeId(2), &tx(7, 1, 100, 14), 50);
    assert_eq!(
        ch.resolve_at(1_000),
        vec![
            ChannelEvent::TransmissionCompleted {
                sender: NodeId(1),
                time: 100,
                collided: true,
            },
            ChannelEvent::TransmissionCompleted {
                sender: NodeId(2),
                time: 150,
                collided: true,
            },
        ]
    );
    assert!(ch.resolve_at(1_000).is_empty());
}

#[test]
fn order_of_sending_does_not_matter() {
    let sent = [(1u32, 20i8, 0u64), (2, 14, 10), (3, 8, 20), (4, 2, 30)];
    let orders = [[0usize, 1, 2, 3], [3, 2, 1, 0], [1, 3, 0, 2], [2, 0, 3, 1]];
    for order in orders {
        let mut ch = Channel::new();
        for i in order {
            let (id, power, start) = sent[i];
            ch.begin_transmission(NodeId(id), &tx(7, 1, 1_000, power), start);
        }
        ch.resolve_at(10_000);
        assert_eq!(
            flags(&mut ch),
            vec![
                (1, false, true),
                (2, true, true),
                (3, true, true),
                (4, true, false),
            ]
        );
    }
}

#[test]
fn threshold_is_inclusive() {
    for (gap, survives) in [(5i8, false), (6, true), (7, true)] {
        let mut ch = Channel::new();
        ch.begin_transmission(NodeId(1), &tx(7, 1, 100, 10 + gap), 0);
        ch.begin_transmission(NodeId(2), &tx(7, 1, 100, 10), 0);
        ch.resolve_at(100);
        assert_eq!(
            flags(&mut ch),
            vec![(1, !survives, survives), (2, true, false)]
        );
    }
}

#[test]
fn fractional_threshold_falls_between_whole_powers() {
    let mut ch = Channel::with_co_channel_rejection(6_001);
    ch.begin_transmission(NodeId(1), &tx(7, 1, 100, 20), 0);
    ch.begin_transmission(NodeId(2), &tx(7, 1, 100, 14), 0);
    ch.resolve_at(100);
    assert_eq!(flags(&mut ch), vec![(1, true, false), (2, true, false)]);
}

#[test]
fn zero_threshold_lets_equal_powers_survive() {
    let mut ch = Channel::with_co_channel_rejection(0);
    ch.begin_transmission(NodeId(1), &tx(7, 1, 100, 14), 0);
    ch.begin_transmission(NodeId(2), &tx(7, 1, 100, 14), 0);
    ch.resolve_at(100);
    assert_eq!(flags(&mut ch), vec![(1, false, true), (2, false, true)]);
}

#[test]
fn resolving_early_changes_nothing() {
    let first = tx(7, 1, 100, 14);
    let second = tx(7, 1, 100, 14);

    let mut early = Channel::new();
    early.begin_transmission(NodeId(1), &first, 0);
    early.resolve_at(100);
    early.begin_transmission(NodeId(2), &second, 100);
    early.resolve_at(200);

    let mut late = Channel::new();
    late.begin_transmission(NodeId(1), &first, 0);
    late.begin_transmission(NodeId(2), &second, 100);
    late.resolve_at(200);

    let expected = vec![(1, false, false), (2, false, false)];
    assert_eq!(flags(&mut early), expected);
    assert_eq!(flags(&mut late), expected);
}

#[test]
fn transmission_without_duration_contends_only_inside_another() {
    let mut ch = Channel::new();
    ch.begin_transmission(NodeId(1), &tx(7, 1, 100, 14), 0);
    ch.begin_transmission(NodeId(2), &tx(7, 1, 0, 14), 50);
    ch.begin_transmission(NodeId(3), &tx(7, 1, 0, 14), 100);
    ch.resolve_at(100);
    assert_eq!(
        flags(&mut ch),
        vec![(1, true, false), (2, true, false), (3, false, false)]
    );
}

#[test]
fn drain_empties_the_completed_list() {
    let mut ch = Channel::new();
    ch.begin_transmission(NodeId(1), &tx(7, 1, 100, 14), 0);
    ch.resolve_at(100);
    assert_eq!(ch.deliver_to(NodeId(2), 100).len(), 1);
    assert_eq!(ch.drain_completed().len(), 1);
    assert!(ch.drain_completed().is_empty());
    assert!(ch.deliver_to(NodeId(2), 100).is_empty());
}

#[test]
fn frames_of_deliver_and_drain_agree() {
    let mut ch = Channel::new();
    ch.begin_transmission(NodeId(1), &tx(7, 1, 100, 14), 0);
    ch.begin_transmission(NodeId(2), &tx(8, 1, 100, 3), 0);
    ch.begin_transmission(NodeId(3), &tx(8, 1, 100, 3), 0);
    ch.resolve_at(100);
    let delivered = ch.deliver_to(NodeId(9), 100);
    let drained = ch.drain_completed();
    let intact: Vec<_> = drained.iter().filter(|c| !c.1).collect();
    assert_eq!(delivered.len(), intact.len());
    for (frame, (_, _, _, kept)) in delivered.iter().zip(intact) {
        assert_eq!(frame.payload, kept.payload);
        assert_eq!(frame.rssi, kept.rssi);
        assert_eq!(frame.snr, kept.snr);
        assert_eq!(frame.sf, kept.sf);
        assert_eq!(frame.frequency, kept.frequency);
        assert_eq!(frame.time, kept.time);
    }
}

#[test]
fn link_budget_reaches_the_extremes() {
    let ch = Channel::with_config(ChannelConfig {
        path_loss_mdb: i32::MAX,
        noise_floor_mdbm: i32::MAX,
        co_channel_rejection_mdb: 0,
    });
    assert_eq!(ch.compute_rssi(-128), -128_000 - 2_147_483_647);
    assert_eq!(
        ch.compute_snr(ch.compute_rssi(-128)),
        -128_000 - 2 * 2_147_483_647i64
    );
    let ch = Channel::with_config(ChannelConfig {
        path_loss_mdb: i32::MIN,
        noise_floor_mdbm: i32::MIN,
        co_channel_rejection_mdb: 0,
    });
    assert_eq!(ch.compute_rssi(127), 127_000 + 2_147_483_648);
    assert_eq!(
        ch.compute_snr(ch.compute_rssi(127)),
        127_000 + 2 * 2_147_483_648i64
    );
}

#[test]
fn default_channel_is_a_lora_channel() {
    let ch = Channel::default();
    assert_eq!(ch.config().path_loss_mdb, 100_000);
    assert_eq!(ch.config().noise_floor_mdbm, -117_000);
    assert_eq!(ch.config().co_channel_rejection_mdb, 6_000);
}

#[test]
fn transmission_may_end_with_the_clock() {
    let mut ch = Channel::new();
    ch.begin_transmission(NodeId(1), &tx(7, 1, 5, 14), u64::MAX - 5);
    assert!(ch.resolve_at(u64::MAX - 1).is_empty());
    assert_eq!(ch.resolve_at(u64::MAX).len(), 1);
}
