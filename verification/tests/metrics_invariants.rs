use theatron::metrics::MetricsCollector;
use theatron::traits::Protocol;
use theatron::types::{NodeId, RxMetadata, Transmission};

#[test]
fn total_tx_equals_sum_of_per_node_tx() {
    let mut samples = Samples::new();
    for _ in 0..64 {
        let len = samples.pick(0, 16 + 1) as usize;
        let counts = (0..len).map(|_| (samples.pick(0, 15 + 1) as u32, samples.pick(0, 50 + 1) as u32)).collect::<Vec<_>>();

        let mut m = MetricsCollector::new();
        for (id, n) in &counts {
            for _ in 0..*n {
                m.record_tx(NodeId(*id));
            }
        }

        let mut per_node_sum: u64 = 0;

        let mut seen: std::collections::HashSet<u32> = std::collections::HashSet::new();
        for (id, _) in &counts {
            seen.insert(*id);
        }
        for id in seen {
            per_node_sum += m.node_tx_count(NodeId(id));
        }
        assert_eq!(m.total_tx, per_node_sum,
            "total_tx ({}) != sum of per-node tx counts ({})",
            m.total_tx, per_node_sum);
    }
}

#[test]
fn total_rx_equals_sum_of_per_node_rx() {
    let mut samples = Samples::new();
    for _ in 0..64 {
        let len = samples.pick(0, 16 + 1) as usize;
        let counts = (0..len).map(|_| (samples.pick(0, 15 + 1) as u32, samples.pick(0, 50 + 1) as u32)).collect::<Vec<_>>();

        let mut m = MetricsCollector::new();
        for (id, n) in &counts {
            for _ in 0..*n {
                m.record_rx(NodeId(*id));
            }
        }
        let mut seen: std::collections::HashSet<u32> = std::collections::HashSet::new();
        for (id, _) in &counts {
            seen.insert(*id);
        }
        let mut per_node_sum: u64 = 0;
        for id in seen {
            per_node_sum += m.node_rx_count(NodeId(id));
        }
        assert_eq!(m.total_rx, per_node_sum,
            "total_rx ({}) != sum of per-node rx counts ({})",
            m.total_rx, per_node_sum);
    }
}

#[test]
fn airtime_accumulation_is_order_independent() {
    let mut samples = Samples::new();
    for _ in 0..64 {
        let len = samples.pick(0, 20 + 1) as usize;
        let durations = (0..len).map(|_| samples.pick(0, 1_000_000 + 1) as u64).collect::<Vec<_>>();

        let mut m1 = MetricsCollector::new();
        let mut m2 = MetricsCollector::new();

        for &d in &durations {
            m1.record_airtime(d);
        }

        for &d in durations.iter().rev() {
            m2.record_airtime(d);
        }
        assert_eq!(m1.total_airtime_us, m2.total_airtime_us);
        assert_eq!(m1.total_airtime_us, durations.iter().sum::<u64>());
    }
}

#[test]
fn collision_and_capture_are_independent_counters() {
    let mut m = MetricsCollector::new();
    m.record_collision();
    m.record_collision();
    m.record_collision();
    m.record_capture();
    m.record_capture();
    assert_eq!(m.total_collisions, 3);
    assert_eq!(m.total_captures, 2);

    assert_eq!(m.total_tx, 0);
    assert_eq!(m.total_rx, 0);
}

#[test]
fn interleaved_collision_capture_records() {
    let mut m = MetricsCollector::new();
    for _ in 0..5 {
        m.record_collision();
        m.record_capture();
    }
    assert_eq!(m.total_collisions, 5);
    assert_eq!(m.total_captures, 5);
}

struct CountingProtocol;

struct CountingState {
    remaining: u32,
    update_calls: u32,
}

impl Protocol for CountingProtocol {
    type Config = u32;
    type State = CountingState;
    type Metrics = ();

    fn init(&self, config: u32) -> (CountingState, Option<u64>) {
        let wake = if config > 0 { Some(0) } else { None };
        (CountingState { remaining: config, update_calls: 0 }, wake)
    }

    fn on_receive(
        &self,
        _state: &mut CountingState,
        _frame: RxMetadata,
        _time: u64,
    ) -> Option<u64> {
        None
    }

    fn poll_transmit(
        &self,
        _state: &mut CountingState,
        _time: u64,
    ) -> Option<Transmission> {
        None
    }

    fn update(&self, state: &mut CountingState, _time: u64) -> Option<u64> {
        state.update_calls += 1;
        if state.remaining > 0 {
            state.remaining -= 1;
            Some(1_000)
        } else {
            None
        }
    }

    fn metrics(&self, _state: &CountingState) {}
}

#[test]
fn protocol_update_none_stops_scheduling() {
    let proto = CountingProtocol;
    let (mut state, _) = proto.init(0);
    let first = proto.update(&mut state, 0);
    assert!(first.is_none(), "update should return None when remaining == 0");
    assert_eq!(state.update_calls, 1);

    let second = proto.update(&mut state, 1_000);
    assert!(second.is_none());
    assert_eq!(state.update_calls, 2);
}

#[test]
fn protocol_update_reschedules_exactly_n_times() {
    let proto = CountingProtocol;
    let reschedules = 4u32;
    let (mut state, initial_wake) = proto.init(reschedules);
    assert!(initial_wake.is_some(), "init should wake the node when reschedules > 0");

    let mut actual_reschedules = 0u32;
    let mut t = 0u64;
    loop {
        match proto.update(&mut state, t) {
            Some(next_t) => {
                actual_reschedules += 1;
                t = next_t;
            }
            None => break,
        }
    }
    assert_eq!(
        actual_reschedules, reschedules,
        "update should return Some exactly {} times", reschedules
    );
    assert_eq!(state.update_calls, reschedules + 1,
        "update should have been called {} times total", reschedules + 1
    );
}

#[test]
fn protocol_update_call_count_matches_reschedule_count() {
    let mut samples = Samples::new();
    for _ in 0..64 {
        let n = samples.pick(0, 20 + 1) as u32;

        let proto = CountingProtocol;
        let (mut state, _) = proto.init(n);
        let mut actual = 0u32;
        let mut t = 0u64;
        loop {
            match proto.update(&mut state, t) {
                Some(next_t) => { actual += 1; t = next_t; }
                None => break,
            }
        }
        assert_eq!(actual, n);
        assert_eq!(state.update_calls, n + 1);
    }
}

struct Samples {
    state: u64,
    round: u64,
}

impl Samples {
    fn new() -> Self {
        Samples { state: 0x9E37_79B9_7F4A_7C15, round: 0 }
    }

    fn next(&mut self) -> u64 {
        self.state ^= self.state << 13;
        self.state ^= self.state >> 7;
        self.state ^= self.state << 17;
        self.state
    }

    fn pick(&mut self, low: i128, high: i128) -> i128 {
        self.round += 1;
        match self.round % 11 {
            1 => low,
            2 => high - 1,
            _ => low + self.next() as i128 % (high - low),
        }
    }
}
