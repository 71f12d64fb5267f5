use theatron::scheduler::{NodeHandle, Scheduler};
use theatron::time::SimTime;
use theatron::traits::TrafficModel;
use theatron::types::{NodeId, RxMetadata, Transmission};

fn make_tx(sf: u8, frequency: u32, duration_us: u64) -> Transmission {
    Transmission {
        payload: vec![0xAB],
        sf,
        bandwidth: 125_000,
        coding_rate: 5,
        frequency,
        duration_us,
        tx_power_dbm: 14,
    }
}

struct SlottedAlohaNode {
    id: NodeId,
    slot_period_us: u64,
    tx_duration_us: u64,
    sf: u8,
    frequency: u32,
    pending: Option<Transmission>,
    tx_count: u64,
}

impl SlottedAlohaNode {
    fn new(id: u32, slot_period_us: u64, tx_duration_us: u64) -> Self {
        Self {
            id: NodeId(id),
            slot_period_us,
            tx_duration_us,
            sf: 7,
            frequency: 868_100_000,
            pending: None,
            tx_count: 0,
        }
    }
}

impl NodeHandle for SlottedAlohaNode {
    fn node_id(&self) -> NodeId {
        self.id
    }

    fn on_receive(&mut self, _frame: RxMetadata, _time: SimTime) -> Option<SimTime> {
        None
    }

    fn poll_transmit(&mut self, _time: SimTime) -> Option<Transmission> {
        if let Some(tx) = self.pending.take() {
            self.tx_count += 1;
            return Some(tx);
        }
        None
    }

    fn update(&mut self, time: SimTime) -> Option<SimTime> {
        self.pending = Some(make_tx(self.sf, self.frequency, self.tx_duration_us));

        Some(time + self.slot_period_us)
    }
}

#[test]
fn fifty_node_slotted_aloha_all_nodes_transmit() {
    const NUM_NODES: u32 = 50;

    const TX_DURATION_US: u64 = 50_000;
    const SLOT_PERIOD_US: u64 = 500_000;

    const INITIAL_SPREAD_US: u64 = SLOT_PERIOD_US / NUM_NODES as u64;

    const END_TIME_US: u64 = 10_000_000;

    const MIN_TX_PER_NODE: u64 = 1;

    const MAX_TX_PER_NODE: u64 = 21;

    let mut sched = Scheduler::new(END_TIME_US);

    let mut nodes: Vec<SlottedAlohaNode> = (0..NUM_NODES)
        .map(|i| SlottedAlohaNode::new(i + 1, SLOT_PERIOD_US, TX_DURATION_US))
        .collect();

    let node_ids: Vec<u32> = nodes.iter().map(|n| n.id.0).collect();
    for (i, node) in nodes.into_iter().enumerate() {
        let initial_wake = i as u64 * INITIAL_SPREAD_US;
        sched.add_node(Box::new(node), Some(initial_wake));
    }

    sched.run();

    for id in 1..=NUM_NODES {
        let count = sched.metrics.node_tx_count(NodeId(id));
        assert!(
            count >= MIN_TX_PER_NODE,
            "node {} never transmitted (count={})",
            id,
            count
        );
    }

    let per_node_sum: u64 = (1..=NUM_NODES)
        .map(|id| sched.metrics.node_tx_count(NodeId(id)))
        .sum();
    assert_eq!(
        sched.metrics.total_tx, per_node_sum,
        "metrics.total_tx ({}) != sum of per-node counts ({})",
        sched.metrics.total_tx, per_node_sum
    );

    for id in 1..=NUM_NODES {
        let count = sched.metrics.node_tx_count(NodeId(id));
        assert!(
            count <= MAX_TX_PER_NODE,
            "node {} tx count {} exceeds the expected maximum of {}",
            id,
            count,
            MAX_TX_PER_NODE
        );
    }

    for id in node_ids {
        let sched_count = sched.metrics.node_tx_count(NodeId(id));

        assert!(
            sched_count <= sched.metrics.total_tx,
            "node {} sched count {} exceeds total_tx {}",
            id,
            sched_count,
            sched.metrics.total_tx
        );
    }

    assert!(
        sched.current_time() > 0,
        "simulation did not advance past t=0"
    );
}

struct PeriodicSender {
    id: NodeId,
    period_us: u64,
    tx_duration_us: u64,
    pending: Option<Transmission>,
}

impl PeriodicSender {
    fn new(id: u32, period_us: u64, tx_duration_us: u64) -> Self {
        Self {
            id: NodeId(id),
            period_us,
            tx_duration_us,
            pending: None,
        }
    }
}

impl NodeHandle for PeriodicSender {
    fn node_id(&self) -> NodeId {
        self.id
    }

    fn on_receive(&mut self, _frame: RxMetadata, _time: SimTime) -> Option<SimTime> {
        None
    }

    fn poll_transmit(&mut self, _time: SimTime) -> Option<Transmission> {
        self.pending.take()
    }

    fn update(&mut self, time: SimTime) -> Option<SimTime> {
        self.pending = Some(make_tx(7, 868_100_000, self.tx_duration_us));
        Some(time + self.period_us)
    }
}

struct ListenerNode {
    id: NodeId,
}

impl ListenerNode {
    fn new(id: u32) -> Self {
        Self { id: NodeId(id) }
    }
}

impl NodeHandle for ListenerNode {
    fn node_id(&self) -> NodeId {
        self.id
    }

    fn on_receive(&mut self, _frame: RxMetadata, _time: SimTime) -> Option<SimTime> {
        None
    }

    fn poll_transmit(&mut self, _time: SimTime) -> Option<Transmission> {
        None
    }

    fn update(&mut self, _time: SimTime) -> Option<SimTime> {
        None
    }
}

#[test]
fn metrics_invariants_hold() {
    let mut samples = Samples::new();
    for _ in 0..64 {
        let num_nodes = samples.pick(2, 20 + 1) as usize;
        let duration_ms = samples.pick(100, 2_000 + 1) as u64;

        let end_time_us = duration_ms * 1_000;

        let mut sched = Scheduler::new(end_time_us);

        for i in 0..num_nodes {
            let id = (i + 1) as u32;
            let initial_wake = i as u64 * 10_000;
            sched.add_node(
                Box::new(PeriodicSender::new(id, 200_000, 50_000)),
                Some(initial_wake),
            );
        }

        let listener_id = (num_nodes + 1) as u32;
        sched.add_node(Box::new(ListenerNode::new(listener_id)), None);

        sched.run();

        let m = &sched.metrics;

        let num_receivers = num_nodes as u64;

        let successful_tx = m.total_tx.saturating_sub(m.total_collisions);
        assert!(
            m.total_rx <= successful_tx * num_receivers,
            "total_rx ({}) > successful_tx ({}) * num_receivers ({})",
            m.total_rx, successful_tx, num_receivers
        );
        assert!(
            m.total_collisions <= m.total_tx,
            "total_collisions ({}) > total_tx ({})",
            m.total_collisions, m.total_tx
        );
        assert!(
            m.total_captures <= m.total_collisions,
            "total_captures ({}) > total_collisions ({})",
            m.total_captures, m.total_collisions
        );
    }
}

struct PeriodicTrafficModel {
    interval_us: u64,
    last_generated_us: u64,
    payload: Vec<u8>,
}

impl PeriodicTrafficModel {
    fn new(interval_us: u64, payload: Vec<u8>) -> Self {
        assert!(interval_us > 0, "interval_us must be > 0");
        Self {
            interval_us,
            last_generated_us: 0,
            payload,
        }
    }
}

impl TrafficModel for PeriodicTrafficModel {
    fn next_payload(&mut self, time: SimTime) -> Option<Vec<u8>> {
        if time >= self.last_generated_us + self.interval_us {
            self.last_generated_us += self.interval_us;
            Some(self.payload.clone())
        } else {
            None
        }
    }
}

#[test]
fn periodic_traffic_model_emits_at_correct_times() {
    let mut model = PeriodicTrafficModel::new(1_000_000, vec![0x01]);

    assert!(model.next_payload(0).is_none());
    assert!(model.next_payload(500_000).is_none());

    assert!(model.next_payload(1_000_000).is_some());

    assert!(model.next_payload(1_000_001).is_none());

    assert!(model.next_payload(2_000_000).is_some());
}

#[test]
fn periodic_traffic_model_does_not_emit_twice_in_same_interval() {
    let mut model = PeriodicTrafficModel::new(500_000, vec![0x42]);

    assert!(model.next_payload(500_000).is_some());

    for _ in 0..5 {
        assert!(model.next_payload(500_000).is_none());
    }
}

#[test]
fn periodic_traffic_model_payload_contents_are_correct() {
    let expected = vec![0xDE, 0xAD, 0xBE, 0xEF];
    let mut model = PeriodicTrafficModel::new(1_000, expected.clone());
    assert_eq!(model.next_payload(1_000).unwrap(), expected);
}

#[test]
fn periodic_traffic_model_interval_of_one_microsecond() {
    let mut model = PeriodicTrafficModel::new(1, vec![0xFF]);

    assert!(model.next_payload(0).is_none());

    assert!(model.next_payload(1).is_some());

    assert!(model.next_payload(1).is_none());

    assert!(model.next_payload(2).is_some());

    assert!(model.next_payload(2).is_none());
}

struct TrafficModelNode {
    id: NodeId,
    model: PeriodicTrafficModel,
    check_interval_us: u64,
    tx_duration_us: u64,
    sf: u8,
    frequency: u32,
    pending: Option<Transmission>,
}

impl TrafficModelNode {
    fn new(
        id: u32,
        model: PeriodicTrafficModel,
        check_interval_us: u64,
        tx_duration_us: u64,
    ) -> Self {
        Self {
            id: NodeId(id),
            model,
            check_interval_us,
            tx_duration_us,
            sf: 7,
            frequency: 868_100_000,
            pending: None,
        }
    }
}

impl NodeHandle for TrafficModelNode {
    fn node_id(&self) -> NodeId {
        self.id
    }

    fn on_receive(&mut self, _frame: RxMetadata, _time: SimTime) -> Option<SimTime> {
        None
    }

    fn poll_transmit(&mut self, _time: SimTime) -> Option<Transmission> {
        self.pending.take()
    }

    fn update(&mut self, time: SimTime) -> Option<SimTime> {
        if let Some(payload) = self.model.next_payload(time) {
            self.pending = Some(Transmission {
                payload,
                sf: self.sf,
                bandwidth: 125_000,
                coding_rate: 5,
                frequency: self.frequency,
                duration_us: self.tx_duration_us,
                tx_power_dbm: 14,
            });
        }
        Some(time + self.check_interval_us)
    }
}

#[test]
fn traffic_model_node_transmits_at_expected_rate() {
    const INTERVAL_US: u64 = 1_000_000;
    const CHECK_INTERVAL_US: u64 = 100_000;
    const TX_DURATION_US: u64 = 50_000;
    const SIM_DURATION_US: u64 = 10_000_000;

    let expected_tx: u64 = SIM_DURATION_US / INTERVAL_US;

    let model = PeriodicTrafficModel::new(INTERVAL_US, vec![0xAB, 0xCD]);
    let sender = TrafficModelNode::new(1, model, CHECK_INTERVAL_US, TX_DURATION_US);

    let listener = ListenerNode::new(2);

    let mut sched = Scheduler::new(SIM_DURATION_US);
    sched.add_node(Box::new(sender), Some(0));
    sched.add_node(Box::new(listener), None);
    sched.run();

    let actual_tx = sched.metrics.total_tx;
    assert!(
        actual_tx >= expected_tx.saturating_sub(1) && actual_tx <= expected_tx + 1,
        "expected ~{} transmissions, got {}",
        expected_tx,
        actual_tx
    );
}

#[test]
fn traffic_model_payload_delivered_correctly() {
    const INTERVAL_US: u64 = 500_000;
    const CHECK_INTERVAL_US: u64 = 50_000;
    const TX_DURATION_US: u64 = 30_000;
    const SIM_DURATION_US: u64 = 2_000_000;

    let payload = vec![0xDE, 0xAD, 0xBE, 0xEF];
    let model = PeriodicTrafficModel::new(INTERVAL_US, payload.clone());
    let sender = TrafficModelNode::new(1, model, CHECK_INTERVAL_US, TX_DURATION_US);

    let listener = ListenerNode::new(2);

    let mut sched = Scheduler::new(SIM_DURATION_US);
    sched.add_node(Box::new(sender), Some(0));
    sched.add_node(Box::new(listener), None);
    sched.run();

    assert_eq!(sched.metrics.total_collisions, 0);
    assert!(
        sched.metrics.total_tx >= 3,
        "expected at least 3 transmissions in a 2 s window, got {}",
        sched.metrics.total_tx
    );
    assert!(
        sched.metrics.total_rx >= sched.metrics.total_tx.saturating_sub(1),
        "received {} frames but expected at most 1 in-flight loss (tx={})",
        sched.metrics.total_rx,
        sched.metrics.total_tx,
    );
}

struct Samples {
    state: u64,
    round: u64,
}

impl Samples {
    fn new() -> Self {
        Samples { state: 0x9E37_79B9_7F4A_7C15, round: 0 }
    }

    fn next(&mut self) -> u64 {
        self.state ^= self.state << 13;
        self.state ^= self.state >> 7;
        self.state ^= self.state << 17;
        self.state
    }

    fn pick(&mut self, low: i128, high: i128) -> i128 {
        self.round += 1;
        match self.round % 11 {
            1 => low,
            2 => high - 1,
            _ => low + self.next() as i128 % (high - low),
        }
    }
}
