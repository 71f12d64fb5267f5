use theatron::scheduler::{NodeHandle, Scheduler};
use theatron::channel::Channel;
use theatron::time::SimTime;
use theatron::traits::InterferenceSource;
use theatron::types::{NodeId, RxMetadata};
use theatron::channel::ChannelConfig;
use theatron::types::{ChannelEvent, Transmission};

struct SimpleNode {
    id: NodeId,
    pending_tx: Option<Transmission>,
    received: Vec<RxMetadata>,
    wake_at: Option<SimTime>,
}

impl SimpleNode {
    fn new(id: u32) -> Self {
        Self {
            id: NodeId(id),
            pending_tx: None,
            received: Vec::new(),
            wake_at: None,
        }
    }

    fn queue_tx(&mut self, tx: Transmission) {
        self.pending_tx = Some(tx);
    }
}

impl NodeHandle for SimpleNode {
    fn node_id(&self) -> NodeId {
        self.id
    }

    fn on_receive(&mut self, frame: RxMetadata, _time: SimTime) -> Option<SimTime> {
        self.received.push(frame);
        None
    }

    fn poll_transmit(&mut self, _time: SimTime) -> Option<Transmission> {
        self.pending_tx.take()
    }

    fn update(&mut self, _time: SimTime) -> Option<SimTime> {
        self.wake_at.take()
    }
}

struct PeriodicNode {
    id: NodeId,
    period: SimTime,
    wake_count: u32,
}

impl PeriodicNode {
    fn new(id: u32, period: SimTime) -> Self {
        Self {
            id: NodeId(id),
            period,
            wake_count: 0,
        }
    }
}

impl NodeHandle for PeriodicNode {
    fn node_id(&self) -> NodeId {
        self.id
    }

    fn on_receive(&mut self, _f: RxMetadata, _t: SimTime) -> Option<SimTime> {
        None
    }

    fn poll_transmit(&mut self, _t: SimTime) -> Option<Transmission> {
        None
    }

    fn update(&mut self, time: SimTime) -> Option<SimTime> {
        self.wake_count += 1;
        Some(time + self.period)
    }
}

struct WakeOnReceive {
    id: NodeId,
    wake_delay_us: u64,
}

impl NodeHandle for WakeOnReceive {
    fn node_id(&self) -> NodeId {
        self.id
    }

    fn on_receive(&mut self, _f: RxMetadata, time: SimTime) -> Option<SimTime> {
        Some(time + self.wake_delay_us)
    }

    fn poll_transmit(&mut self, _t: SimTime) -> Option<Transmission> {
        None
    }

    fn update(&mut self, _t: SimTime) -> Option<SimTime> {
        None
    }
}

struct NoOpInterferer;

impl InterferenceSource for NoOpInterferer {
    fn observe(&mut self, _event: &ChannelEvent, _time: SimTime) {}
    fn poll_inject(&mut self, _time: SimTime) -> Option<Transmission> {
        None
    }
    fn next_poll_time(&self, _current_time: SimTime) -> Option<SimTime> {
        None
    }
}

struct ActiveInterferer {
    tx: Transmission,
    poll_interval: u64,
    remaining: usize,
}

impl InterferenceSource for ActiveInterferer {
    fn observe(&mut self, _event: &ChannelEvent, _time: SimTime) {}
    fn poll_inject(&mut self, _time: SimTime) -> Option<Transmission> {
        if self.remaining > 0 {
            self.remaining -= 1;
            Some(self.tx.clone())
        } else {
            None
        }
    }
    fn next_poll_time(&self, current_time: SimTime) -> Option<SimTime> {
        if self.remaining > 0 {
            Some(current_time + self.poll_interval)
        } else {
            None
        }
    }
}

struct ReplyNode {
    id: NodeId,
    reply_tx: Option<Transmission>,
    received: bool,
}

impl NodeHandle for ReplyNode {
    fn node_id(&self) -> NodeId {
        self.id
    }
    fn on_receive(&mut self, _f: RxMetadata, _t: SimTime) -> Option<SimTime> {
        self.received = true;
        None
    }
    fn poll_transmit(&mut self, _t: SimTime) -> Option<Transmission> {
        if self.received {
            self.reply_tx.take()
        } else {
            None
        }
    }
    fn update(&mut self, _t: SimTime) -> Option<SimTime> {
        None
    }
}

fn make_tx(sf: u8, frequency: u32, duration_us: u64) -> Transmission {
    Transmission {
        payload: vec![0xAB],
        sf,
        bandwidth: 125_000,
        coding_rate: 5,
        frequency,
        duration_us,
        tx_power_dbm: 14,
    }
}

#[test]
fn single_node_tx_is_counted() {
    let mut scheduler = Scheduler::new(100_000);
    let mut node = SimpleNode::new(1);
    node.queue_tx(make_tx(7, 868_100_000, 50_000));
    scheduler.add_node(Box::new(node), Some(0));
    scheduler.run();
    assert_eq!(scheduler.metrics.total_tx, 1);
}

#[test]
fn two_nodes_deliver_to_each_other() {
    let mut scheduler = Scheduler::new(200_000);
    let mut sender = SimpleNode::new(1);
    sender.queue_tx(make_tx(7, 868_100_000, 50_000));
    let receiver = SimpleNode::new(2);
    scheduler.add_node(Box::new(sender), Some(0));
    scheduler.add_node(Box::new(receiver), None);
    scheduler.run();
    assert_eq!(scheduler.metrics.total_tx, 1);
    assert_eq!(scheduler.metrics.total_rx, 1);
}

#[test]
fn rx_returning_wake_schedules_node() {
    let mut scheduler = Scheduler::new(200_000);
    let mut sender = SimpleNode::new(1);
    sender.queue_tx(make_tx(7, 868_100_000, 50_000));
    scheduler.add_node(Box::new(sender), Some(0));
    scheduler.add_node(
        Box::new(WakeOnReceive {
            id: NodeId(2),
            wake_delay_us: 10_000,
        }),
        None,
    );
    scheduler.run();
    assert_eq!(scheduler.metrics.total_rx, 1);
}

#[test]
fn interferer_registration_does_not_panic() {
    let mut scheduler = Scheduler::new(100_000);
    scheduler.add_interferer(Box::new(NoOpInterferer), 0);
    scheduler.run();
}

#[test]
fn simulation_stops_at_end_time() {
    let end_time = 1_000_000u64;
    let mut scheduler = Scheduler::new(end_time);
    scheduler.add_node(Box::new(PeriodicNode::new(1, 100_000)), Some(0));
    scheduler.run();
    assert!(scheduler.current_time() <= end_time);
}

#[test]
fn add_node_without_wake_never_wakes() {
    let mut scheduler = Scheduler::new(100_000);
    scheduler.add_node(Box::new(PeriodicNode::new(1, 10_000)), None);
    scheduler.run();
    assert_eq!(scheduler.current_time(), 0);
    assert_eq!(scheduler.metrics.total_tx, 0);
}

#[test]
fn add_node_after_interferer_validates_id_space() {
    let mut sched = Scheduler::new(200_000);
    sched.add_interferer(Box::new(NoOpInterferer), 0);

    sched.add_node(Box::new(SimpleNode::new(1)), Some(0));
    sched.run();
    assert_eq!(sched.metrics.total_tx, 0);
}

#[test]
fn two_nodes_overlapping_tx_records_collision() {
    let mut sched = Scheduler::new(200_000);
    let mut n1 = SimpleNode::new(1);
    n1.queue_tx(make_tx(7, 868_100_000, 50_000));
    let mut n2 = SimpleNode::new(2);
    n2.queue_tx(make_tx(7, 868_100_000, 50_000));
    sched.add_node(Box::new(n1), Some(0));
    sched.add_node(Box::new(n2), Some(10_000));
    sched.run();

    assert_eq!(sched.metrics.total_tx, 2);
    assert_eq!(
        sched.metrics.total_collisions, 2,
        "overlapping same-SF/freq TXs must both collide"
    );
    assert_eq!(sched.metrics.total_rx, 0);
}

#[test]
fn active_interferer_injects_and_records_airtime() {
    let mut sched = Scheduler::new(300_000);
    let interferer = ActiveInterferer {
        tx: make_tx(7, 868_100_000, 30_000),
        poll_interval: 100_000,
        remaining: 2,
    };
    sched.add_interferer(Box::new(interferer), 0);
    sched.run();

    assert_eq!(sched.metrics.total_airtime_us, 60_000);
    assert_eq!(
        sched.metrics.total_tx, 0,
        "interferer TXs do not count as node TXs"
    );
}

#[test]
fn single_tx_airtime_is_recorded() {
    let mut sched = Scheduler::new(200_000);
    let mut node = SimpleNode::new(1);
    node.queue_tx(make_tx(7, 868_100_000, 75_000));
    sched.add_node(Box::new(node), Some(0));
    sched.run();

    assert_eq!(sched.metrics.total_airtime_us, 75_000);
}

#[test]
fn receive_triggers_reply_tx() {
    let mut sched = Scheduler::new(200_000);
    let mut sender = SimpleNode::new(1);
    sender.queue_tx(make_tx(7, 868_100_000, 50_000));
    sched.add_node(Box::new(sender), Some(0));

    let reply_node = ReplyNode {
        id: NodeId(2),
        reply_tx: Some(make_tx(7, 868_100_000, 30_000)),
        received: false,
    };
    sched.add_node(Box::new(reply_node), None);
    sched.run();

    assert_eq!(sched.metrics.total_tx, 2, "original + reply");
    assert_eq!(sched.metrics.total_airtime_us, 80_000);
    assert_eq!(
        sched.metrics.total_rx, 2,
        "each node receives the other's TX"
    );
}

#[test]
fn broadcast_to_three_receivers() {
    let mut sched = Scheduler::new(200_000);
    let mut sender = SimpleNode::new(1);
    sender.queue_tx(make_tx(7, 868_100_000, 50_000));
    sched.add_node(Box::new(sender), Some(0));
    sched.add_node(Box::new(SimpleNode::new(2)), None);
    sched.add_node(Box::new(SimpleNode::new(3)), None);
    sched.add_node(Box::new(SimpleNode::new(4)), None);
    sched.run();

    assert_eq!(sched.metrics.total_tx, 1);
    assert_eq!(sched.metrics.total_rx, 3);
    assert_eq!(sched.metrics.node_rx_count(NodeId(2)), 1);
    assert_eq!(sched.metrics.node_rx_count(NodeId(3)), 1);
    assert_eq!(sched.metrics.node_rx_count(NodeId(4)), 1);
    assert_eq!(sched.metrics.node_rx_count(NodeId(1)), 0);
}

#[test]
fn capture_effect_through_scheduler() {
    let mut sched = Scheduler::new(200_000);
    let mut strong = SimpleNode::new(1);
    strong.queue_tx(Transmission {
        payload: vec![0xAB],
        sf: 7,
        bandwidth: 125_000,
        coding_rate: 5,
        frequency: 868_100_000,
        duration_us: 50_000,
        tx_power_dbm: 20,
    });
    let mut weak = SimpleNode::new(2);
    weak.queue_tx(Transmission {
        payload: vec![0xCD],
        sf: 7,
        bandwidth: 125_000,
        coding_rate: 5,
        frequency: 868_100_000,
        duration_us: 50_000,
        tx_power_dbm: 14,
    });
    sched.add_node(Box::new(strong), Some(0));
    sched.add_node(Box::new(weak), Some(10_000));
    sched.add_node(Box::new(SimpleNode::new(3)), None);
    sched.run();

    assert_eq!(sched.metrics.total_tx, 2);
    assert_eq!(sched.metrics.total_captures, 1);
    assert_eq!(sched.metrics.total_collisions, 1);
    assert_eq!(
        sched.metrics.total_rx, 2,
        "strong TX delivered to both non-sender nodes"
    );
}

#[test]
fn interferer_collides_with_node_tx() {
    let mut sched = Scheduler::new(200_000);
    let mut node = SimpleNode::new(1);
    node.queue_tx(make_tx(7, 868_100_000, 50_000));
    sched.add_node(Box::new(node), Some(0));
    sched.add_node(Box::new(SimpleNode::new(2)), None);

    let interferer = ActiveInterferer {
        tx: make_tx(7, 868_100_000, 50_000),
        poll_interval: 0,
        remaining: 1,
    };
    sched.add_interferer(Box::new(interferer), 10_000);
    sched.run();

    assert!(sched.metrics.total_collisions > 0);
    assert_eq!(sched.metrics.total_rx, 0, "collision prevents delivery");
}

#[test]
fn with_channel_uses_custom_config() {
    let strict_channel = Channel::with_config(ChannelConfig {
        path_loss_mdb: 100_000,
        noise_floor_mdbm: -117_000,
        co_channel_rejection_mdb: 10_000,
    });

    let mut sched_lora = Scheduler::new(200_000);
    let mut strong_lora = SimpleNode::new(1);
    strong_lora.queue_tx(Transmission {
        payload: vec![0xAB],
        sf: 7,
        bandwidth: 125_000,
        coding_rate: 5,
        frequency: 868_100_000,
        duration_us: 50_000,
        tx_power_dbm: 20,
    });
    let mut weak_lora = SimpleNode::new(2);
    weak_lora.queue_tx(Transmission {
        payload: vec![0xCD],
        sf: 7,
        bandwidth: 125_000,
        coding_rate: 5,
        frequency: 868_100_000,
        duration_us: 50_000,
        tx_power_dbm: 14,
    });
    sched_lora.add_node(Box::new(strong_lora), Some(0));
    sched_lora.add_node(Box::new(weak_lora), Some(10_000));
    sched_lora.add_node(Box::new(SimpleNode::new(3)), None);
    sched_lora.run();

    let mut sched_strict = Scheduler::with_channel(200_000, strict_channel);
    let mut strong_strict = SimpleNode::new(1);
    strong_strict.queue_tx(Transmission {
        payload: vec![0xAB],
        sf: 7,
        bandwidth: 125_000,
        coding_rate: 5,
        frequency: 868_100_000,
        duration_us: 50_000,
        tx_power_dbm: 20,
    });
    let mut weak_strict = SimpleNode::new(2);
    weak_strict.queue_tx(Transmission {
        payload: vec![0xCD],
        sf: 7,
        bandwidth: 125_000,
        coding_rate: 5,
        frequency: 868_100_000,
        duration_us: 50_000,
        tx_power_dbm: 14,
    });
    sched_strict.add_node(Box::new(strong_strict), Some(0));
    sched_strict.add_node(Box::new(weak_strict), Some(10_000));
    sched_strict.add_node(Box::new(SimpleNode::new(3)), None);
    sched_strict.run();

    assert_eq!(
        sched_lora.metrics.total_rx, 2,
        "LoRa channel: strong signal captured, delivered to both other nodes"
    );
    assert_eq!(
        sched_strict.metrics.total_rx, 0,
        "strict channel: delta=6 < threshold=10, both collide, nothing delivered"
    );
}

#[test]
fn n_receivers_all_get_broadcast() {
    let mut samples = Samples::new();
    for _ in 0..64 {
        let n = samples.pick(2, 20) as usize;

        let mut sched = Scheduler::new(200_000);
        let mut sender = SimpleNode::new(0);
        sender.queue_tx(make_tx(7, 868_100_000, 50_000));
        sched.add_node(Box::new(sender), Some(0));
        for i in 1..=n {
            sched.add_node(Box::new(SimpleNode::new(i as u32)), None);
        }
        sched.run();
        assert_eq!(sched.metrics.total_tx, 1u64);
        assert_eq!(sched.metrics.total_rx, n as u64);
    }
}

struct Samples {
    state: u64,
    round: u64,
}

impl Samples {
    fn new() -> Self {
        Samples { state: 0x9E37_79B9_7F4A_7C15, round: 0 }
    }

    fn next(&mut self) -> u64 {
        self.state ^= self.state << 13;
        self.state ^= self.state >> 7;
        self.state ^= self.state << 17;
        self.state
    }

    fn pick(&mut self, low: i128, high: i128) -> i128 {
        self.round += 1;
        match self.round % 11 {
            1 => low,
            2 => high - 1,
            _ => low + self.next() as i128 % (high - low),
        }
    }
}
