use std::cell::RefCell;
use std::rc::Rc;

use theatron::scheduler::{NodeHandle, Scheduler};
use theatron::time::SimTime;
use theatron::traits::InterferenceSource;
use theatron::types::{ChannelEvent, NodeId, RxMetadata, Transmission};

type ObserveLog = Rc<RefCell<Vec<(SimTime, NodeId, &'static str)>>>;

fn make_tx(sf: u8, frequency: u32, duration_us: u64, payload: Vec<u8>, power: i8) -> Transmission {
    Transmission {
        payload,
        sf,
        bandwidth: 125_000,
        coding_rate: 5,
        frequency,
        duration_us,
        tx_power_dbm: power,
    }
}

struct ReplyOnReceiveNode {
    id: NodeId,
    received_count: u32,
    pending_reply: Option<Transmission>,
    reply_should_fire: bool,
}

impl NodeHandle for ReplyOnReceiveNode {
    fn node_id(&self) -> NodeId {
        self.id
    }
    fn on_receive(&mut self, _frame: RxMetadata, _time: SimTime) -> Option<SimTime> {
        self.received_count += 1;

        self.reply_should_fire = true;
        None
    }
    fn poll_transmit(&mut self, _time: SimTime) -> Option<Transmission> {
        if self.reply_should_fire {
            self.reply_should_fire = false;
            self.pending_reply.take()
        } else {
            None
        }
    }
    fn update(&mut self, _time: SimTime) -> Option<SimTime> {
        None
    }
}

struct CountingReceiver {
    id: NodeId,
    received_count: Rc<RefCell<u32>>,
}

impl NodeHandle for CountingReceiver {
    fn node_id(&self) -> NodeId {
        self.id
    }
    fn on_receive(&mut self, _frame: RxMetadata, _time: SimTime) -> Option<SimTime> {
        *self.received_count.borrow_mut() += 1;
        None
    }
    fn poll_transmit(&mut self, _time: SimTime) -> Option<Transmission> {
        None
    }
    fn update(&mut self, _time: SimTime) -> Option<SimTime> {
        None
    }
}

struct OneShotSender {
    id: NodeId,
    tx: Option<Transmission>,
}

impl NodeHandle for OneShotSender {
    fn node_id(&self) -> NodeId {
        self.id
    }
    fn on_receive(&mut self, _frame: RxMetadata, _time: SimTime) -> Option<SimTime> {
        None
    }
    fn poll_transmit(&mut self, _time: SimTime) -> Option<Transmission> {
        self.tx.take()
    }
    fn update(&mut self, _time: SimTime) -> Option<SimTime> {
        None
    }
}

struct OneShotInjector {
    tx: Option<Transmission>,
}

impl InterferenceSource for OneShotInjector {
    fn observe(&mut self, _event: &ChannelEvent, _time: SimTime) {}
    fn poll_inject(&mut self, _time: SimTime) -> Option<Transmission> {
        self.tx.take()
    }
    fn next_poll_time(&self, _current_time: SimTime) -> Option<SimTime> {
        None
    }
}

struct PeriodicInjector {
    template: Transmission,
    remaining: u32,
    interval_us: u64,
}

impl InterferenceSource for PeriodicInjector {
    fn observe(&mut self, _event: &ChannelEvent, _time: SimTime) {}
    fn poll_inject(&mut self, _time: SimTime) -> Option<Transmission> {
        if self.remaining > 0 {
            self.remaining -= 1;
            Some(self.template.clone())
        } else {
            None
        }
    }
    fn next_poll_time(&self, current_time: SimTime) -> Option<SimTime> {
        if self.remaining > 0 {
            Some(current_time + self.interval_us)
        } else {
            None
        }
    }
}

struct LoggingMidTxInjector {
    tx: Option<Transmission>,
    peek_time: SimTime,
    peeked: Rc<RefCell<bool>>,
    log: ObserveLog,
}

impl InterferenceSource for LoggingMidTxInjector {
    fn observe(&mut self, event: &ChannelEvent, time: SimTime) {
        let entry = match event {
            ChannelEvent::TransmissionStarted { sender, .. } => (time, *sender, "started"),
            ChannelEvent::TransmissionCompleted { sender, .. } => (time, *sender, "completed"),
        };
        self.log.borrow_mut().push(entry);
    }
    fn poll_inject(&mut self, _time: SimTime) -> Option<Transmission> {
        self.tx.take()
    }
    fn next_poll_time(&self, _current_time: SimTime) -> Option<SimTime> {
        let mut peeked = self.peeked.borrow_mut();
        if *peeked {
            None
        } else {
            *peeked = true;
            Some(self.peek_time)
        }
    }
}

#[test]
fn interferer_frame_triggers_node_reply_in_same_tick() {
    let mut sched = Scheduler::new(1_000_000);

    let reply_tx = make_tx(7, 868_300_000, 30_000, vec![0xBE, 0xEF], 14);
    let reply_node = ReplyOnReceiveNode {
        id: NodeId(1),
        received_count: 0,
        pending_reply: Some(reply_tx.clone()),
        reply_should_fire: false,
    };

    sched.add_node(Box::new(reply_node), None);
    sched.add_node(
        Box::new(CountingReceiver {
            id: NodeId(2),
            received_count: Rc::new(RefCell::new(0)),
        }),
        None,
    );

    sched.add_interferer(
        Box::new(OneShotInjector {
            tx: Some(make_tx(7, 868_100_000, 40_000, vec![0xCA, 0xFE], 14)),
        }),
        0,
    );

    sched.run();

    assert_eq!(
        sched.metrics.total_tx, 1,
        "exactly one node TX (the reply) should be counted; interferer TXs do not count toward total_tx"
    );
    assert_eq!(
        sched.metrics.total_airtime_us,
        40_000 + 30_000,
        "airtime must include both the interferer's TX and the node's reply"
    );
    assert_eq!(
        sched.metrics.total_collisions, 0,
        "interferer TX (SF7 868.1 MHz) and reply TX (SF7 868.3 MHz) are on different frequencies"
    );

    assert_eq!(
        sched.metrics.total_rx, 3,
        "interferer broadcast (2 rx) + reply chain (1 rx) = 3 rx"
    );
    assert_eq!(
        sched.metrics.node_tx_count(NodeId(1)),
        1,
        "node 1's reply must be attributed to node 1, not to the interferer's synthetic id"
    );
    assert_eq!(
        sched.metrics.node_tx_count(NodeId(2)),
        0,
        "node 2 never transmits"
    );
}

#[test]
fn interferer_originated_frame_credits_each_node_once() {
    let mut sched = Scheduler::new(500_000);

    for id in 1u32..=3 {
        sched.add_node(
            Box::new(CountingReceiver {
                id: NodeId(id),
                received_count: Rc::new(RefCell::new(0)),
            }),
            None,
        );
    }

    sched.add_interferer(
        Box::new(OneShotInjector {
            tx: Some(make_tx(8, 868_500_000, 50_000, vec![0x42], 17)),
        }),
        0,
    );

    sched.run();

    for id in 1u32..=3 {
        assert_eq!(
            sched.metrics.node_rx_count(NodeId(id)),
            1,
            "node {id} must be credited exactly once for the interferer's TX"
        );
    }
    assert_eq!(sched.metrics.total_rx, 3);
    assert_eq!(
        sched.metrics.total_tx, 0,
        "interferer TXs never count as node TXs"
    );
    assert_eq!(sched.metrics.total_airtime_us, 50_000);
}

#[test]
fn stronger_interferer_captures_weaker_node_tx() {
    let mut sched = Scheduler::new(500_000);

    let weak_tx = make_tx(7, 868_100_000, 80_000, vec![0xAA], 14);
    let strong_tx = make_tx(7, 868_100_000, 80_000, vec![0xBB], 20);

    let sender = OneShotSender {
        id: NodeId(1),
        tx: Some(weak_tx),
    };
    sched.add_node(Box::new(sender), Some(0));
    sched.add_node(
        Box::new(CountingReceiver {
            id: NodeId(2),
            received_count: Rc::new(RefCell::new(0)),
        }),
        None,
    );
    sched.add_node(
        Box::new(CountingReceiver {
            id: NodeId(3),
            received_count: Rc::new(RefCell::new(0)),
        }),
        None,
    );

    sched.add_interferer(
        Box::new(OneShotInjector {
            tx: Some(strong_tx),
        }),
        10_000,
    );

    sched.run();

    assert_eq!(
        sched.metrics.total_tx, 1,
        "only the node TX counts as total_tx"
    );
    assert_eq!(
        sched.metrics.total_collisions, 1,
        "the weak node TX is collided"
    );
    assert_eq!(
        sched.metrics.total_captures, 1,
        "the strong interferer TX is captured"
    );

    assert_eq!(
        sched.metrics.total_rx, 3,
        "strong interferer frame delivered to all 3 real nodes (id=1, 2, 3)"
    );
    for id in 1u32..=3 {
        assert_eq!(
            sched.metrics.node_rx_count(NodeId(id)),
            1,
            "node {id} receives the interferer's captured frame exactly once"
        );
    }
}

#[test]
fn many_interferers_airtime_and_no_spurious_collisions() {
    const N: u32 = 8;
    const DURATION: u64 = 25_000;
    let mut sched = Scheduler::new(1_000_000);

    sched.add_node(
        Box::new(CountingReceiver {
            id: NodeId(1),
            received_count: Rc::new(RefCell::new(0)),
        }),
        None,
    );

    for i in 0..N {
        let freq = 868_000_000 + 200_000 * i;
        sched.add_interferer(
            Box::new(OneShotInjector {
                tx: Some(make_tx(7, freq, DURATION, vec![i as u8], 14)),
            }),
            0,
        );
    }

    sched.run();

    assert_eq!(
        sched.metrics.total_airtime_us,
        DURATION * N as u64,
        "airtime must aggregate over every interferer TX"
    );
    assert_eq!(
        sched.metrics.total_collisions, 0,
        "interferers on disjoint frequencies must not collide"
    );
    assert_eq!(
        sched.metrics.total_rx, N as u64,
        "the single receiver must record_rx once per interferer TX"
    );
    assert_eq!(
        sched.metrics.node_rx_count(NodeId(1)),
        N as u64,
        "every interferer-originated frame must be credited to node 1"
    );
}

#[test]
fn interferer_observes_own_tx_when_poll_scheduled_mid_tx() {
    let mut sched = Scheduler::new(500_000);
    let log: ObserveLog = Rc::new(RefCell::new(Vec::new()));

    let interferer = LoggingMidTxInjector {
        tx: Some(make_tx(9, 868_700_000, 100_000, vec![0x77], 14)),
        peek_time: 50_000,
        peeked: Rc::new(RefCell::new(false)),
        log: Rc::clone(&log),
    };
    sched.add_interferer(Box::new(interferer), 0);

    sched.run();

    let entries = log.borrow();
    let synth_id = NodeId(u32::MAX);

    let started: Vec<_> = entries
        .iter()
        .filter(|(_, s, k)| *s == synth_id && *k == "started")
        .collect();
    let completed: Vec<_> = entries
        .iter()
        .filter(|(_, s, k)| *s == synth_id && *k == "completed")
        .collect();

    assert_eq!(
        started.len(),
        1,
        "interferer must observe its own TransmissionStarted exactly once"
    );
    assert_eq!(
        completed.len(),
        1,
        "interferer must observe its own TransmissionCompleted exactly once"
    );
    assert_eq!(
        started[0].0, 0,
        "TransmissionStarted is observed at the start time (t=0)"
    );
    assert_eq!(
        completed[0].0, 100_000,
        "TransmissionCompleted is observed at the TX's end time"
    );

    let mut last = 0u64;
    for (t, _, _) in entries.iter() {
        assert!(*t >= last, "observe event times must be non-decreasing");
        last = *t;
    }
}

#[test]
fn interferer_completion_coincident_with_node_wake_is_deterministic() {
    fn run() -> (u64, u64, u64) {
        let mut sched = Scheduler::new(500_000);

        sched.add_node(
            Box::new(CountingReceiver {
                id: NodeId(1),
                received_count: Rc::new(RefCell::new(0)),
            }),
            Some(40_000),
        );
        sched.add_node(
            Box::new(CountingReceiver {
                id: NodeId(2),
                received_count: Rc::new(RefCell::new(0)),
            }),
            None,
        );

        sched.add_interferer(
            Box::new(OneShotInjector {
                tx: Some(make_tx(7, 868_100_000, 40_000, vec![0x01], 14)),
            }),
            0,
        );

        sched.run();
        (
            sched.metrics.total_tx,
            sched.metrics.total_rx,
            sched.metrics.total_airtime_us,
        )
    }

    let a = run();
    let b = run();
    assert_eq!(a, b, "identical scenarios must produce identical metrics");

    assert_eq!(a.0, 0, "no node ever transmits");
    assert_eq!(
        a.1, 2,
        "the single interferer TX is delivered to both real nodes"
    );
    assert_eq!(a.2, 40_000, "airtime equals the interferer's TX duration");
}

#[test]
fn periodic_interferer_delivers_exactly_k_frames() {
    const K: u32 = 5;
    const DURATION: u64 = 20_000;
    const INTERVAL: u64 = 50_000;

    let mut sched = Scheduler::new(1_000_000);

    let received = Rc::new(RefCell::new(0u32));
    sched.add_node(
        Box::new(CountingReceiver {
            id: NodeId(1),
            received_count: Rc::clone(&received),
        }),
        None,
    );

    sched.add_interferer(
        Box::new(PeriodicInjector {
            template: make_tx(7, 868_900_000, DURATION, vec![0xEE], 14),
            remaining: K,
            interval_us: INTERVAL,
        }),
        0,
    );

    sched.run();

    assert_eq!(*received.borrow(), K, "node must receive exactly K frames");
    assert_eq!(
        sched.metrics.total_rx, K as u64,
        "total_rx must equal K (one frame per receiver per injection)"
    );
    assert_eq!(
        sched.metrics.total_airtime_us,
        K as u64 * DURATION,
        "airtime must accumulate over every injection"
    );
    assert_eq!(
        sched.metrics.total_tx, 0,
        "interferer injections do not increment total_tx"
    );
    assert_eq!(
        sched.metrics.total_collisions, 0,
        "non-overlapping interferer injections must not collide"
    );
}
