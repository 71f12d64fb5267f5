use std::cell::RefCell;
use std::rc::Rc;

use theatron::aloha::{AlohaNode, UniformInterarrivalTraffic};
use theatron::scheduler::{NodeHandle, RunOutcome, Scheduler};
use theatron::time::SimTime;
use theatron::traits::InterferenceSource;
use theatron::types::{ChannelEvent, NodeId, RxMetadata, Transmission};

type Times = Rc<RefCell<Vec<(u32, SimTime)>>>;

fn tx(sf: u8, duration_us: u64) -> Transmission {
    Transmission {
        payload: vec![0xAB],
        sf,
        bandwidth: 125_000,
        coding_rate: 5,
        frequency: 868_100_000,
        duration_us,
        tx_power_dbm: 14,
    }
}

/// Transmits what it has, asks for prepared wake-ups, and notes its updates and polls.
struct Busy {
    id: NodeId,
    outbox: Vec<Transmission>,
    wakes: Vec<SimTime>,
    on_hearing: Option<SimTime>,
    updates: Times,
    polls: Times,
}

impl NodeHandle for Busy {
    fn node_id(&self) -> NodeId {
        self.id
    }
    fn on_receive(&mut self, _frame: RxMetadata, _time: SimTime) -> Option<SimTime> {
        self.on_hearing
    }
    fn poll_transmit(&mut self, time: SimTime) -> Option<Transmission> {
        self.polls.borrow_mut().push((self.id.0, time));
        self.outbox.pop()
    }
    fn update(&mut self, time: SimTime) -> Option<SimTime> {
        self.updates.borrow_mut().push((self.id.0, time));
        self.wakes.pop()
    }
}

fn busy(id: u32, updates: &Times, polls: &Times) -> Busy {
    Busy {
        id: NodeId(id),
        outbox: Vec::new(),
        wakes: Vec::new(),
        on_hearing: None,
        updates: Rc::clone(updates),
        polls: Rc::clone(polls),
    }
}

fn times() -> Times {
    Rc::new(RefCell::new(Vec::new()))
}

/// Injects once and notes what it observes.
struct Watcher {
    burst: Option<Transmission>,
    seen: Rc<RefCell<Vec<(ChannelEvent, SimTime)>>>,
}

impl InterferenceSource for Watcher {
    fn observe(&mut self, event: &ChannelEvent, time: SimTime) {
        self.seen.borrow_mut().push((*event, time));
    }
    fn poll_inject(&mut self, _time: SimTime) -> Option<Transmission> {
        self.burst.take()
    }
    fn next_poll_time(&self, _current_time: SimTime) -> Option<SimTime> {
        None
    }
}

#[test]
fn each_request_is_answered_by_one_update_and_a_poll() {
    let (updates, polls) = (times(), times());
    let mut sched = Scheduler::new(1_000);
    // Asked for: 300 twice, by the first update and on hearing; 1_000 by the second update;
    // 1_001 comes too late.
    let mut listener = busy(1, &updates, &polls);
    listener.wakes = vec![1_001, 1_000, 300];
    listener.on_hearing = Some(300);
    sched.add_node(Box::new(listener), Some(10));
    let mut sender = busy(2, &updates, &polls);
    sender.outbox = vec![tx(7, 100)];
    sched.add_node(Box::new(sender), Some(10));
    assert_eq!(sched.run(), RunOutcome::Finished);

    let of_listener: Vec<SimTime> =
        updates.borrow().iter().filter(|u| u.0 == 1).map(|u| u.1).collect();
    assert_eq!(of_listener, vec![10, 300, 300, 1_000]);
    for update in updates.borrow().iter() {
        assert!(polls.borrow().contains(update));
    }
    let polls_at_300 = polls.borrow().iter().filter(|p| **p == (1, 300)).count();
    assert_eq!(polls_at_300, 2);
}

#[test]
fn each_transmission_is_observed_once_at_start_and_once_at_end() {
    let (updates, polls) = (times(), times());
    let seen = Rc::new(RefCell::new(Vec::new()));
    let late = Rc::new(RefCell::new(Vec::new()));
    let mut sched = Scheduler::new(150);
    let mut sender = busy(1, &updates, &polls);
    sender.outbox = vec![tx(8, 100), tx(7, 100)];
    sched.add_node(Box::new(sender), Some(0));
    sched.add_node(Box::new(busy(2, &updates, &polls)), None);
    sched.add_interferer(Box::new(Watcher { burst: None, seen: Rc::clone(&seen) }), 0);
    sched.add_interferer(Box::new(Watcher { burst: Some(tx(9, 60)), seen: Rc::clone(&late) }), 60);
    assert_eq!(sched.run(), RunOutcome::Finished);

    let started = |sender: u32, sf: u8, time: SimTime| {
        (
            ChannelEvent::TransmissionStarted {
                sender: NodeId(sender),
                sf,
                frequency: 868_100_000,
                time,
            },
            time,
        )
    };
    let completed = |sender: u32, time: SimTime| {
        (
            ChannelEvent::TransmissionCompleted { sender: NodeId(sender), time, collided: false },
            time,
        )
    };
    // The second frame of the node goes out when the interferer's ends, and ends past the run.
    let expected = vec![
        started(1, 7, 0),
        started(u32::MAX - 1, 9, 60),
        completed(1, 100),
        completed(u32::MAX - 1, 120),
        started(1, 8, 120),
    ];
    assert_eq!(*seen.borrow(), expected);
    assert_eq!(*late.borrow(), expected);
}

#[test]
fn receptions_add_up_to_what_got_through() {
    let (updates, polls) = (times(), times());
    let mut sched = Scheduler::new(10_000);
    for id in 0..5 {
        let mut node = busy(id, &updates, &polls);
        // Two nodes collide; two send alone on other spreading factors.
        node.outbox = match id {
            0 | 1 => vec![tx(7, 100)],
            2 => vec![tx(8, 100)],
            3 => vec![tx(9, 100)],
            _ => Vec::new(),
        };
        sched.add_node(Box::new(node), Some(0));
    }
    assert_eq!(sched.run(), RunOutcome::Finished);
    assert_eq!(sched.metrics.total_tx, 4);
    assert_eq!(sched.metrics.total_collisions, 2);
    assert_eq!(sched.metrics.total_rx, (4 - 2) * (5 - 1));
}

#[test]
fn each_handle_answers_for_itself() {
    let (updates, polls) = (times(), times());
    let mut sched = Scheduler::new(100);
    // Both have a wake-up to ask for; only the second is ever woken.
    for id in [4, 9] {
        let mut node = busy(id, &updates, &polls);
        node.wakes = vec![id as SimTime * 10];
        sched.add_node(Box::new(node), if id == 9 { Some(1) } else { None });
    }
    assert_eq!(sched.run(), RunOutcome::Finished);
    assert_eq!(*updates.borrow(), vec![(9, 1), (9, 90)]);
    assert_eq!(*polls.borrow(), vec![(9, 1), (9, 90)]);
}

#[test]
fn run_of_two_aloha_nodes_is_counted() {
    let mut sched = Scheduler::new(57_000);
    let first = AlohaNode::new(NodeId(1), UniformInterarrivalTraffic::new(1, 7), 0, 5);
    let second = AlohaNode::new(NodeId(2), UniformInterarrivalTraffic::new(1, 7), 0, 5);
    sched.add_node(Box::new(first), Some(0));
    sched.add_node(Box::new(second), None);
    assert_eq!(sched.run(), RunOutcome::Finished);
    assert_eq!(sched.metrics.total_tx, 2);
    assert_eq!(sched.metrics.node_tx_count(NodeId(1)), 2);
    assert_eq!(sched.metrics.total_rx, 1);
    assert_eq!(sched.metrics.node_rx_count(NodeId(2)), 1);
    assert_eq!(sched.metrics.total_collisions, 0);
    assert_eq!(sched.metrics.total_airtime_us, 112_000);
    assert_eq!(sched.current_time(), 57_000);
}

#[test]
fn reruns_with_the_same_seeds_are_alike() {
    let run = || {
        let mut sched = Scheduler::new(2_000_000);
        for id in 1..5u32 {
            let traffic = UniformInterarrivalTraffic::new(70_000, id as u64);
            let node = AlohaNode::new(NodeId(id), traffic, 30_000, 100 + id as u64);
            sched.add_node(Box::new(node), Some(0));
        }
        let seen = Rc::new(RefCell::new(Vec::new()));
        sched.add_interferer(Box::new(Watcher { burst: Some(tx(7, 60)), seen: Rc::clone(&seen) }), 0);
        assert_eq!(sched.run(), RunOutcome::Finished);
        let m = sched.metrics();
        let totals = (
            m.total_tx_count(),
            m.total_rx_count(),
            m.total_collision_count(),
            m.total_capture_count(),
            m.total_airtime(),
        );
        let events = seen.borrow().clone();
        (totals, events, sched.current_time())
    };
    let first = run();
    assert!(first.0 .0 > 0);
    assert_eq!(first, run());
}
