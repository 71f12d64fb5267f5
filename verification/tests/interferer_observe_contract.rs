use std::cell::RefCell;
use std::rc::Rc;

use theatron::scheduler::{NodeHandle, Scheduler};
use theatron::time::SimTime;
use theatron::traits::InterferenceSource;
use theatron::types::{ChannelEvent, NodeId, RxMetadata, Transmission};

fn tx(sf: u8, frequency: u32, duration_us: u64) -> Transmission {
    Transmission {
        payload: vec![0xAA],
        sf,
        bandwidth: 125_000,
        coding_rate: 5,
        frequency,
        duration_us,
        tx_power_dbm: 14,
    }
}

struct OneShotNode {
    id: NodeId,
    pending: Option<Transmission>,
}

impl OneShotNode {
    fn new(id: u32, t: Transmission) -> Self {
        Self {
            id: NodeId(id),
            pending: Some(t),
        }
    }
}

impl NodeHandle for OneShotNode {
    fn node_id(&self) -> NodeId {
        self.id
    }
    fn on_receive(&mut self, _f: RxMetadata, _t: SimTime) -> Option<SimTime> {
        None
    }
    fn poll_transmit(&mut self, _t: SimTime) -> Option<Transmission> {
        self.pending.take()
    }
    fn update(&mut self, _t: SimTime) -> Option<SimTime> {
        None
    }
}

struct ObservingInterferer {
    observations: Rc<RefCell<Vec<(ChannelEvent, SimTime)>>>,
    poll_count: Rc<RefCell<u32>>,
    poll_interval: u64,
    max_polls: u32,
}

impl InterferenceSource for ObservingInterferer {
    fn observe(&mut self, event: &ChannelEvent, time: SimTime) {
        self.observations.borrow_mut().push((event.clone(), time));
    }

    fn poll_inject(&mut self, _time: SimTime) -> Option<Transmission> {
        *self.poll_count.borrow_mut() += 1;
        None
    }

    fn next_poll_time(&self, current_time: SimTime) -> Option<SimTime> {
        if *self.poll_count.borrow() < self.max_polls {
            Some(current_time + self.poll_interval)
        } else {
            None
        }
    }
}

struct InjectingObserver {
    inject: RefCell<Option<Transmission>>,
    observations: Rc<RefCell<Vec<(ChannelEvent, SimTime)>>>,
}

impl InterferenceSource for InjectingObserver {
    fn observe(&mut self, event: &ChannelEvent, time: SimTime) {
        self.observations.borrow_mut().push((event.clone(), time));
    }

    fn poll_inject(&mut self, _time: SimTime) -> Option<Transmission> {
        self.inject.borrow_mut().take()
    }

    fn next_poll_time(&self, _current_time: SimTime) -> Option<SimTime> {
        None
    }
}

#[test]
fn interferer_observes_node_tx_start_and_completion() {
    let observations: Rc<RefCell<Vec<(ChannelEvent, SimTime)>>> = Rc::new(RefCell::new(Vec::new()));
    let poll_count = Rc::new(RefCell::new(0u32));

    let interferer = ObservingInterferer {
        observations: Rc::clone(&observations),
        poll_count: Rc::clone(&poll_count),
        poll_interval: 1_000_000,

        max_polls: 1,
    };

    let mut sched = Scheduler::new(500_000);
    sched.add_node(
        Box::new(OneShotNode::new(1, tx(7, 868_100_000, 50_000))),
        Some(0),
    );
    sched.add_interferer(Box::new(interferer), 0);
    sched.run();

    let obs = observations.borrow();

    let starts: Vec<_> = obs
        .iter()
        .filter(|(e, _)| matches!(e, ChannelEvent::TransmissionStarted { .. }))
        .collect();
    let completes: Vec<_> = obs
        .iter()
        .filter(|(e, _)| matches!(e, ChannelEvent::TransmissionCompleted { .. }))
        .collect();

    assert_eq!(
        starts.len(),
        1,
        "expected exactly one TransmissionStarted observation, got {}: {:?}",
        starts.len(),
        obs
    );
    assert_eq!(
        completes.len(),
        1,
        "expected exactly one TransmissionCompleted observation, got {}: {:?}",
        completes.len(),
        obs
    );

    if let ChannelEvent::TransmissionStarted {
        sender,
        sf,
        frequency,
        time,
    } = &starts[0].0
    {
        assert_eq!(*sender, NodeId(1));
        assert_eq!(*sf, 7);
        assert_eq!(*frequency, 868_100_000);
        assert_eq!(*time, 0, "TX started at t=0");
    } else {
        unreachable!()
    }

    if let ChannelEvent::TransmissionCompleted {
        sender,
        time,
        collided,
    } = &completes[0].0
    {
        assert_eq!(*sender, NodeId(1));
        assert_eq!(*time, 50_000, "TX completes at start + duration");
        assert!(!collided, "single TX should not be collided");
    } else {
        unreachable!()
    }
}

#[test]
fn interferer_observes_its_own_injected_tx() {
    let observations: Rc<RefCell<Vec<(ChannelEvent, SimTime)>>> = Rc::new(RefCell::new(Vec::new()));

    let injector = InjectingObserver {
        inject: RefCell::new(Some(tx(7, 868_100_000, 30_000))),
        observations: Rc::clone(&observations),
    };

    let mut sched = Scheduler::new(500_000);
    sched.add_interferer(Box::new(injector), 0);
    sched.run();

    let obs = observations.borrow();

    let starts: Vec<_> = obs
        .iter()
        .filter(|(e, _)| matches!(e, ChannelEvent::TransmissionStarted { .. }))
        .collect();
    let completes: Vec<_> = obs
        .iter()
        .filter(|(e, _)| matches!(e, ChannelEvent::TransmissionCompleted { .. }))
        .collect();

    assert_eq!(
        starts.len(),
        1,
        "interferer must observe its own TransmissionStarted event"
    );
    assert_eq!(
        completes.len(),
        1,
        "interferer must observe its own TransmissionCompleted event"
    );

    if let ChannelEvent::TransmissionStarted { sender, .. } = &starts[0].0 {
        assert_eq!(
            *sender,
            NodeId(u32::MAX),
            "interferer sees its own injection under the synthetic interferer ID"
        );
    } else {
        unreachable!()
    }

    if let ChannelEvent::TransmissionCompleted { sender, .. } = &completes[0].0 {
        assert_eq!(
            *sender,
            NodeId(u32::MAX),
            "TransmissionCompleted for self-injected TX must use the same synthetic interferer ID as TransmissionStarted"
        );
    } else {
        unreachable!()
    }
}

#[test]
fn each_interferer_observes_other_interferers_tx() {
    let obs_a: Rc<RefCell<Vec<(ChannelEvent, SimTime)>>> = Rc::new(RefCell::new(Vec::new()));
    let obs_b: Rc<RefCell<Vec<(ChannelEvent, SimTime)>>> = Rc::new(RefCell::new(Vec::new()));

    let a = InjectingObserver {
        inject: RefCell::new(Some(tx(7, 868_100_000, 30_000))),
        observations: Rc::clone(&obs_a),
    };
    let b = InjectingObserver {
        inject: RefCell::new(None),
        observations: Rc::clone(&obs_b),
    };

    let mut sched = Scheduler::new(500_000);
    sched.add_interferer(Box::new(a), 0);
    sched.add_interferer(Box::new(b), 0);
    sched.run();

    for (label, observations) in [("A", &obs_a), ("B", &obs_b)] {
        let obs = observations.borrow();
        let starts = obs
            .iter()
            .filter(|(e, _)| matches!(e, ChannelEvent::TransmissionStarted { .. }))
            .count();
        let completes = obs
            .iter()
            .filter(|(e, _)| matches!(e, ChannelEvent::TransmissionCompleted { .. }))
            .count();
        assert_eq!(
            starts, 1,
            "interferer {label} must observe the other interferer's TransmissionStarted",
        );
        assert_eq!(
            completes, 1,
            "interferer {label} must observe the other interferer's TransmissionCompleted",
        );
    }
}

#[test]
fn interferer_observes_collided_flag_on_completion() {
    let observations: Rc<RefCell<Vec<(ChannelEvent, SimTime)>>> = Rc::new(RefCell::new(Vec::new()));
    let poll_count = Rc::new(RefCell::new(0u32));

    let interferer = ObservingInterferer {
        observations: Rc::clone(&observations),
        poll_count: Rc::clone(&poll_count),
        poll_interval: 1_000_000,
        max_polls: 1,
    };

    let mut sched = Scheduler::new(500_000);

    sched.add_node(
        Box::new(OneShotNode::new(1, tx(7, 868_100_000, 50_000))),
        Some(0),
    );
    sched.add_node(
        Box::new(OneShotNode::new(2, tx(7, 868_100_000, 50_000))),
        Some(10_000),
    );
    sched.add_interferer(Box::new(interferer), 0);
    sched.run();

    let obs = observations.borrow();
    let completions: Vec<_> = obs
        .iter()
        .filter_map(|(e, _)| match e {
            ChannelEvent::TransmissionCompleted { collided, .. } => Some(*collided),
            _ => None,
        })
        .collect();

    assert_eq!(completions.len(), 2, "expected 2 completion events");
    assert!(
        completions.iter().all(|c| *c),
        "both overlapping same-SF/freq TXs must be reported as collided to the interferer: got {:?}",
        completions,
    );
}

#[test]
fn next_poll_time_none_permanently_stops_polling() {
    let observations: Rc<RefCell<Vec<(ChannelEvent, SimTime)>>> = Rc::new(RefCell::new(Vec::new()));
    let poll_count = Rc::new(RefCell::new(0u32));

    let interferer = ObservingInterferer {
        observations: Rc::clone(&observations),
        poll_count: Rc::clone(&poll_count),
        poll_interval: 10_000,
        max_polls: 3,
    };

    let mut sched = Scheduler::new(10_000_000);
    sched.add_interferer(Box::new(interferer), 0);
    sched.run();

    assert_eq!(
        *poll_count.borrow(),
        3,
        "poll_inject must be called exactly max_polls times once next_poll_time returns None",
    );
}

#[test]
fn observed_event_times_are_non_decreasing() {
    let observations: Rc<RefCell<Vec<(ChannelEvent, SimTime)>>> = Rc::new(RefCell::new(Vec::new()));
    let poll_count = Rc::new(RefCell::new(0u32));

    let interferer = ObservingInterferer {
        observations: Rc::clone(&observations),
        poll_count: Rc::clone(&poll_count),
        poll_interval: 1_000_000,
        max_polls: 1,
    };

    let mut sched = Scheduler::new(1_000_000);
    sched.add_node(
        Box::new(OneShotNode::new(1, tx(7, 868_100_000, 50_000))),
        Some(0),
    );
    sched.add_node(
        Box::new(OneShotNode::new(2, tx(7, 868_300_000, 50_000))),
        Some(100_000),
    );
    sched.add_node(
        Box::new(OneShotNode::new(3, tx(8, 868_100_000, 50_000))),
        Some(200_000),
    );
    sched.add_interferer(Box::new(interferer), 0);
    sched.run();

    let obs = observations.borrow();
    assert_eq!(obs.len(), 6, "3 starts + 3 completes = 6 observations");

    let times: Vec<SimTime> = obs.iter().map(|(_, t)| *t).collect();
    for w in times.windows(2) {
        assert!(
            w[0] <= w[1],
            "observed event times must be non-decreasing, got pair ({}, {}) in {:?}",
            w[0],
            w[1],
            times,
        );
    }
}
