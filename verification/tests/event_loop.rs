use std::cell::RefCell;
use std::rc::Rc;

use theatron::scheduler::{EventKind, NodeHandle, RunOutcome, Scheduler};
use theatron::time::SimTime;
use theatron::traits::InterferenceSource;
use theatron::types::{ChannelEvent, NodeId, RxMetadata, Transmission};

#[derive(Debug, Clone, PartialEq)]
enum Seen {
    Update(u32, SimTime),
    Poll(u32, SimTime),
    Receive(u32, SimTime, Vec<u8>),
    Started(usize, u32, SimTime),
    Completed(usize, u32, SimTime, bool),
    Inject(usize, SimTime),
}

type Trace = Rc<RefCell<Vec<Seen>>>;

fn tx(payload: Vec<u8>, duration_us: u64) -> Transmission {
    Transmission {
        payload,
        sf: 7,
        bandwidth: 125_000,
        coding_rate: 5,
        frequency: 868_100_000,
        duration_us,
        tx_power_dbm: 14,
    }
}

/// Answers updates and receptions with prepared times and polls with prepared transmissions.
struct Scripted {
    id: NodeId,
    wakes: Vec<Option<SimTime>>,
    replies: Vec<Option<SimTime>>,
    outbox: Vec<Transmission>,
    trace: Trace,
}

impl Scripted {
    fn new(id: u32, trace: &Trace) -> Self {
        Scripted {
            id: NodeId(id),
            wakes: Vec::new(),
            replies: Vec::new(),
            outbox: Vec::new(),
            trace: Rc::clone(trace),
        }
    }

    fn wakes(mut self, wakes: &[Option<SimTime>]) -> Self {
        self.wakes = wakes.iter().rev().cloned().collect();
        self
    }

    fn replies(mut self, replies: &[Option<SimTime>]) -> Self {
        self.replies = replies.iter().rev().cloned().collect();
        self
    }

    fn sends(mut self, tx: Transmission) -> Self {
        self.outbox.push(tx);
        self
    }
}

impl NodeHandle for Scripted {
    fn node_id(&self) -> NodeId {
        self.id
    }

    fn on_receive(&mut self, frame: RxMetadata, time: SimTime) -> Option<SimTime> {
        self.trace
            .borrow_mut()
            .push(Seen::Receive(self.id.0, time, frame.payload));
        self.replies.pop().unwrap_or(None)
    }

    fn poll_transmit(&mut self, time: SimTime) -> Option<Transmission> {
        self.trace.borrow_mut().push(Seen::Poll(self.id.0, time));
        self.outbox.pop()
    }

    fn update(&mut self, time: SimTime) -> Option<SimTime> {
        self.trace.borrow_mut().push(Seen::Update(self.id.0, time));
        self.wakes.pop().unwrap_or(None)
    }
}

struct Jammer {
    idx: usize,
    bursts: Vec<Transmission>,
    next: Vec<Option<SimTime>>,
    polled: RefCell<usize>,
    trace: Trace,
}

impl InterferenceSource for Jammer {
    fn observe(&mut self, event: &ChannelEvent, time: SimTime) {
        let seen = match event {
            ChannelEvent::TransmissionStarted { sender, .. } => {
                Seen::Started(self.idx, sender.0, time)
            }
            ChannelEvent::TransmissionCompleted {
                sender,
                time: end,
                collided,
            } => {
                assert!(*end <= time);
                Seen::Completed(self.idx, sender.0, time, *collided)
            }
        };
        self.trace.borrow_mut().push(seen);
    }

    fn poll_inject(&mut self, time: SimTime) -> Option<Transmission> {
        self.trace.borrow_mut().push(Seen::Inject(self.idx, time));
        self.bursts.pop()
    }

    fn next_poll_time(&self, _current_time: SimTime) -> Option<SimTime> {
        let mut polled = self.polled.borrow_mut();
        let next = self.next.get(*polled).cloned().unwrap_or(None);
        *polled += 1;
        next
    }
}

fn jammer(idx: usize, bursts: Vec<Transmission>, next: Vec<Option<SimTime>>, trace: &Trace) -> Jammer {
    Jammer {
        idx,
        bursts,
        next,
        polled: RefCell::new(0),
        trace: Rc::clone(trace),
    }
}

fn trace() -> Trace {
    Rc::new(RefCell::new(Vec::new()))
}

#[test]
fn calls_come_in_the_documented_order() {
    let t = trace();
    let mut sched = Scheduler::new(1_000);
    sched.add_node(Box::new(Scripted::new(1, &t).sends(tx(vec![9], 100))), Some(10));
    sched.add_node(Box::new(Scripted::new(2, &t).replies(&[Some(300)])), None);
    sched.add_interferer(Box::new(jammer(0, vec![], vec![], &t)), 5);
    assert_eq!(sched.run(), RunOutcome::Finished);
    assert_eq!(
        *t.borrow(),
        vec![
            Seen::Inject(0, 5),
            Seen::Update(1, 10),
            Seen::Poll(1, 10),
            Seen::Started(0, 1, 10),
            Seen::Completed(0, 1, 110, false),
            Seen::Receive(2, 110, vec![9]),
            Seen::Poll(2, 110),
            Seen::Update(2, 300),
            Seen::Poll(2, 300),
        ]
    );
    assert_eq!(sched.current_time(), 300);
    assert_eq!(sched.metrics.total_tx, 1);
    assert_eq!(sched.metrics.total_rx, 1);
    assert_eq!(sched.metrics.total_airtime_us, 100);
    assert_eq!(sched.metrics.node_tx_count(NodeId(1)), 1);
    assert_eq!(sched.metrics.node_rx_count(NodeId(2)), 1);
    assert_eq!(sched.metrics.node_rx_count(NodeId(1)), 0);
}

#[test]
fn reply_goes_out_at_the_time_of_reception() {
    let t = trace();
    let mut sched = Scheduler::new(1_000);
    sched.add_node(Box::new(Scripted::new(1, &t).sends(tx(vec![1], 100))), Some(0));
    sched.add_node(Box::new(Scripted::new(2, &t).sends(tx(vec![2], 50))), None);
    sched.run();
    assert!(t.borrow().contains(&Seen::Receive(1, 150, vec![2])));
    assert_eq!(sched.metrics.total_tx, 2);
    assert_eq!(sched.metrics.total_rx, 2);
}

#[test]
fn wake_in_the_past_turns_the_clock_back() {
    let t = trace();
    let mut sched = Scheduler::new(1_000);
    sched.add_node(Box::new(Scripted::new(1, &t).wakes(&[Some(40), None])), Some(100));
    sched.run();
    assert_eq!(
        *t.borrow(),
        vec![
            Seen::Update(1, 100),
            Seen::Poll(1, 100),
            Seen::Update(1, 40),
            Seen::Poll(1, 40),
        ]
    );
    assert_eq!(sched.current_time(), 40);
}

#[test]
fn first_event_past_the_end_is_dropped() {
    let t = trace();
    let mut sched = Scheduler::new(100);
    sched.add_node(Box::new(Scripted::new(1, &t)), Some(200));
    sched.add_node(Box::new(Scripted::new(2, &t)), Some(100));
    assert_eq!(sched.run(), RunOutcome::Finished);
    assert_eq!(sched.run(), RunOutcome::Finished);
    assert_eq!(*t.borrow(), vec![Seen::Update(2, 100), Seen::Poll(2, 100)]);
    assert_eq!(sched.current_time(), 100);
}

#[test]
fn nodes_can_join_between_runs() {
    let t = trace();
    let mut sched = Scheduler::new(100);
    sched.add_node(Box::new(Scripted::new(1, &t)), Some(10));
    sched.run();
    sched.add_node(Box::new(Scripted::new(2, &t)), Some(20));
    sched.run();
    assert_eq!(
        *t.borrow(),
        vec![
            Seen::Update(1, 10),
            Seen::Poll(1, 10),
            Seen::Update(2, 20),
            Seen::Poll(2, 20),
        ]
    );
}

#[test]
fn shared_identifier_wakes_the_first_node() {
    let t = trace();
    let mut sched = Scheduler::new(100);
    let mut first = Scripted::new(7, &t);
    first.outbox.push(tx(vec![1], 10));
    sched.add_node(Box::new(first), None);
    sched.add_node(Box::new(Scripted::new(7, &t)), Some(50));
    sched.run();
    assert_eq!(sched.metrics.node_tx_count(NodeId(7)), 1);
    assert_eq!(sched.metrics.total_rx, 0);
    assert_eq!(sched.current_time(), 60);
}

#[test]
fn interferers_transmit_under_ids_counted_down() {
    let t = trace();
    let mut sched = Scheduler::new(1_000);
    sched.add_node(Box::new(Scripted::new(1, &t)), None);
    sched.add_interferer(Box::new(jammer(0, vec![tx(vec![3], 10)], vec![None], &t)), 0);
    sched.add_interferer(Box::new(jammer(1, vec![tx(vec![4], 10)], vec![None], &t)), 100);
    sched.run();
    assert_eq!(
        *t.borrow(),
        vec![
            Seen::Inject(0, 0),
            Seen::Started(0, u32::MAX, 0),
            Seen::Started(1, u32::MAX, 0),
            Seen::Completed(0, u32::MAX, 10, false),
            Seen::Completed(1, u32::MAX, 10, false),
            Seen::Receive(1, 10, vec![3]),
            Seen::Poll(1, 10),
            Seen::Inject(1, 100),
            Seen::Started(0, u32::MAX - 1, 100),
            Seen::Started(1, u32::MAX - 1, 100),
            Seen::Completed(0, u32::MAX - 1, 110, false),
            Seen::Completed(1, u32::MAX - 1, 110, false),
            Seen::Receive(1, 110, vec![4]),
            Seen::Poll(1, 110),
        ]
    );
    assert_eq!(sched.metrics.total_tx, 0);
    assert_eq!(sched.metrics.total_airtime_us, 20);
}

#[test]
fn interferer_that_declines_is_not_polled_again() {
    let t = trace();
    let mut sched = Scheduler::new(1_000);
    sched.add_interferer(
        Box::new(jammer(0, vec![], vec![Some(10), Some(20), None], &t)),
        0,
    );
    sched.run();
    assert_eq!(
        *t.borrow(),
        vec![Seen::Inject(0, 0), Seen::Inject(0, 10), Seen::Inject(0, 20)]
    );
}

#[test]
fn collision_is_counted_and_not_delivered() {
    let t = trace();
    let mut sched = Scheduler::new(1_000);
    sched.add_node(Box::new(Scripted::new(1, &t).sends(tx(vec![1], 100))), Some(0));
    sched.add_node(Box::new(Scripted::new(2, &t).sends(tx(vec![2], 100))), Some(50));
    sched.add_node(Box::new(Scripted::new(3, &t)), None);
    sched.run();
    assert_eq!(sched.metrics.total_collisions, 2);
    assert_eq!(sched.metrics.total_rx, 0);
    assert!(!t.borrow().iter().any(|s| matches!(s, Seen::Receive(..))));
}

#[test]
fn transmission_past_the_end_of_the_clock_stops_the_run() {
    let t = trace();
    let mut sched = Scheduler::new(1_000);
    sched.add_node(Box::new(Scripted::new(1, &t).sends(tx(vec![1], u64::MAX))), Some(1));
    sched.add_node(Box::new(Scripted::new(2, &t)), Some(500));
    assert_eq!(sched.run(), RunOutcome::OutOfRange);
    assert_eq!(sched.metrics.total_tx, 0);
    assert_eq!(*t.borrow(), vec![Seen::Update(1, 1), Seen::Poll(1, 1)]);
    assert_eq!(sched.run(), RunOutcome::OutOfRange);
    assert_eq!(t.borrow().len(), 2);
}

#[test]
fn longest_transmission_at_the_start_fits_the_clock() {
    let t = trace();
    let mut sched = Scheduler::new(1_000);
    sched.add_node(Box::new(Scripted::new(1, &t).sends(tx(vec![1], u64::MAX))), Some(0));
    assert_eq!(sched.run(), RunOutcome::Finished);
    assert_eq!(sched.metrics.total_airtime_us, u64::MAX);
}

#[test]
fn full_counter_stops_the_run() {
    let t = trace();

    let mut sched = Scheduler::new(1_000);
    sched.add_node(Box::new(Scripted::new(1, &t).sends(tx(vec![1], 10))), Some(0));
    sched.metrics.total_tx = u64::MAX;
    assert_eq!(sched.run(), RunOutcome::OutOfRange);

    let mut sched = Scheduler::new(1_000);
    sched.add_node(Box::new(Scripted::new(1, &t).sends(tx(vec![1], 10))), Some(0));
    sched.metrics.total_airtime_us = u64::MAX - 9;
    assert_eq!(sched.run(), RunOutcome::OutOfRange);

    let mut sched = Scheduler::new(1_000);
    sched.add_node(Box::new(Scripted::new(1, &t).sends(tx(vec![1], 10))), Some(0));
    sched.add_node(Box::new(Scripted::new(2, &t)), None);
    sched.metrics.total_rx = u64::MAX;
    assert_eq!(sched.run(), RunOutcome::OutOfRange);

    let mut sched = Scheduler::new(1_000);
    sched.add_node(Box::new(Scripted::new(1, &t).sends(tx(vec![1], 10))), Some(0));
    sched.add_node(Box::new(Scripted::new(2, &t).sends(tx(vec![1], 10))), Some(0));
    sched.metrics.total_collisions = u64::MAX - 1;
    assert_eq!(sched.run(), RunOutcome::OutOfRange);
    assert_eq!(sched.metrics.total_collisions, u64::MAX);

    let mut strong = tx(vec![1], 10);
    strong.tx_power_dbm = 20;
    let mut sched = Scheduler::new(1_000);
    sched.add_node(Box::new(Scripted::new(1, &t).sends(strong)), Some(0));
    sched.add_node(Box::new(Scripted::new(2, &t).sends(tx(vec![1], 10))), Some(0));
    sched.metrics.total_captures = u64::MAX;
    assert_eq!(sched.run(), RunOutcome::OutOfRange);
}

#[test]
fn injection_that_does_not_fit_stops_the_run() {
    let t = trace();
    let mut sched = Scheduler::new(1_000);
    sched.add_interferer(Box::new(jammer(0, vec![tx(vec![3], u64::MAX)], vec![Some(9)], &t)), 5);
    assert_eq!(sched.run(), RunOutcome::OutOfRange);
    assert_eq!(*t.borrow(), vec![Seen::Inject(0, 5)]);
}

#[test]
fn everything_on_the_air_by_the_end_completes() {
    let t = trace();
    let mut sched = Scheduler::new(100);
    sched.add_node(Box::new(Scripted::new(1, &t).sends(tx(vec![1], 90))), Some(10));
    let mut late = tx(vec![2], 91);
    late.sf = 8;
    sched.add_node(Box::new(Scripted::new(2, &t).sends(late)), Some(10));
    sched.run();
    assert_eq!(sched.metrics.total_tx, 2);
    assert_eq!(sched.metrics.total_rx, 1);
    assert_eq!(sched.current_time(), 100);
}

#[test]
fn same_scenario_gives_the_same_calls() {
    fn run_once() -> Vec<Seen> {
        let t = trace();
        let mut sched = Scheduler::new(10_000);
        for id in 1..6u32 {
            sched.add_node(
                Box::new(
                    Scripted::new(id, &t)
                        .wakes(&[Some(id as u64 * 500), None])
                        .sends(tx(vec![id as u8], 200)),
                ),
                Some(id as u64 * 100),
            );
        }
        sched.add_interferer(Box::new(jammer(0, vec![tx(vec![0], 300)], vec![Some(700)], &t)), 450);
        sched.run();
        let seen = t.borrow().clone();
        seen
    }
    let first = run_once();
    assert!(!first.is_empty());
    assert_eq!(first, run_once());
}

#[test]
fn event_kinds_compare_by_contents() {
    assert_eq!(
        EventKind::Wake { node_id: NodeId(1) },
        EventKind::Wake { node_id: NodeId(1) }
    );
    assert_ne!(
        EventKind::Wake { node_id: NodeId(1) },
        EventKind::TxComplete { sender: NodeId(1) }
    );
}
