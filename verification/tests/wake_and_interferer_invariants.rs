use std::cell::RefCell;
use std::rc::Rc;

use theatron::scheduler::{NodeHandle, Scheduler};
use theatron::time::SimTime;
use theatron::traits::InterferenceSource;
use theatron::types::{ChannelEvent, NodeId, RxMetadata, Transmission};

fn tx(sf: u8, freq: u32, dur: u64, power: i8) -> Transmission {
    Transmission {
        payload: vec![0xAB],
        sf,
        bandwidth: 125_000,
        coding_rate: 5,
        frequency: freq,
        duration_us: dur,
        tx_power_dbm: power,
    }
}

struct ReceiveThenWake {
    id: NodeId,
    wake_at: SimTime,

    rx_times: Rc<RefCell<Vec<SimTime>>>,

    update_times: Rc<RefCell<Vec<SimTime>>>,

    armed: bool,
}

impl NodeHandle for ReceiveThenWake {
    fn node_id(&self) -> NodeId {
        self.id
    }

    fn on_receive(&mut self, _frame: RxMetadata, time: SimTime) -> Option<SimTime> {
        self.rx_times.borrow_mut().push(time);
        if self.armed {
            return None;
        }
        self.armed = true;
        Some(self.wake_at)
    }

    fn poll_transmit(&mut self, _time: SimTime) -> Option<Transmission> {
        None
    }

    fn update(&mut self, time: SimTime) -> Option<SimTime> {
        self.update_times.borrow_mut().push(time);
        None
    }
}

struct OneShotTx {
    id: NodeId,
    pending: Option<Transmission>,
}

impl NodeHandle for OneShotTx {
    fn node_id(&self) -> NodeId {
        self.id
    }
    fn on_receive(&mut self, _f: RxMetadata, _t: SimTime) -> Option<SimTime> {
        None
    }
    fn poll_transmit(&mut self, _t: SimTime) -> Option<Transmission> {
        self.pending.take()
    }
    fn update(&mut self, _t: SimTime) -> Option<SimTime> {
        None
    }
}

#[test]
fn on_receive_wake_fires_at_exact_absolute_time() {
    const TX_DURATION_US: u64 = 50_000;
    const ABS_WAKE: SimTime = 200_000;

    let rx_times = Rc::new(RefCell::new(Vec::new()));
    let update_times = Rc::new(RefCell::new(Vec::new()));

    let mut sched = Scheduler::new(500_000);
    sched.add_node(
        Box::new(OneShotTx {
            id: NodeId(1),
            pending: Some(tx(7, 868_100_000, TX_DURATION_US, 14)),
        }),
        Some(0),
    );
    sched.add_node(
        Box::new(ReceiveThenWake {
            id: NodeId(2),
            wake_at: ABS_WAKE,
            rx_times: Rc::clone(&rx_times),
            update_times: Rc::clone(&update_times),
            armed: false,
        }),
        None,
    );
    sched.run();

    assert_eq!(
        *rx_times.borrow(),
        vec![TX_DURATION_US],
        "on_receive must fire exactly at TX completion time",
    );

    assert_eq!(
        *update_times.borrow(),
        vec![ABS_WAKE],
        "update must fire at the exact absolute SimTime returned by on_receive",
    );

    assert!(
        sched.current_time() >= ABS_WAKE,
        "scheduler must advance to at least the requested wake",
    );
}

#[test]
fn on_receive_wake_beyond_end_time_does_not_fire() {
    let rx_times = Rc::new(RefCell::new(Vec::new()));
    let update_times = Rc::new(RefCell::new(Vec::new()));

    let mut sched = Scheduler::new(100_000);
    sched.add_node(
        Box::new(OneShotTx {
            id: NodeId(1),
            pending: Some(tx(7, 868_100_000, 50_000, 14)),
        }),
        Some(0),
    );
    sched.add_node(
        Box::new(ReceiveThenWake {
            id: NodeId(2),
            wake_at: 500_000,
            rx_times: Rc::clone(&rx_times),
            update_times: Rc::clone(&update_times),
            armed: false,
        }),
        None,
    );
    sched.run();

    assert_eq!(rx_times.borrow().len(), 1, "on_receive must still fire");
    assert!(
        update_times.borrow().is_empty(),
        "update must not fire when the requested wake is past end_time; got: {:?}",
        update_times.borrow()
    );
    assert!(sched.current_time() <= 100_000);
}

#[test]
fn on_receive_returning_none_does_not_schedule_update() {
    struct PassiveReceiver {
        id: NodeId,
        update_times: Rc<RefCell<Vec<SimTime>>>,
    }
    impl NodeHandle for PassiveReceiver {
        fn node_id(&self) -> NodeId {
            self.id
        }
        fn on_receive(&mut self, _f: RxMetadata, _t: SimTime) -> Option<SimTime> {
            None
        }
        fn poll_transmit(&mut self, _t: SimTime) -> Option<Transmission> {
            None
        }
        fn update(&mut self, time: SimTime) -> Option<SimTime> {
            self.update_times.borrow_mut().push(time);
            None
        }
    }

    let update_times = Rc::new(RefCell::new(Vec::new()));
    let mut sched = Scheduler::new(500_000);
    sched.add_node(
        Box::new(OneShotTx {
            id: NodeId(1),
            pending: Some(tx(7, 868_100_000, 50_000, 14)),
        }),
        Some(0),
    );
    sched.add_node(
        Box::new(PassiveReceiver {
            id: NodeId(2),
            update_times: Rc::clone(&update_times),
        }),
        None,
    );
    sched.run();

    assert!(
        update_times.borrow().is_empty(),
        "passive receiver returning None from on_receive must not have update fired; got: {:?}",
        update_times.borrow()
    );
}

#[derive(Clone)]
struct ObservedEvent {
    label: &'static str,
    kind: &'static str,
    sender: NodeId,
}

struct InjectAndObserve {
    label: &'static str,
    inject: Option<Transmission>,
    observed: Rc<RefCell<Vec<ObservedEvent>>>,
}

impl InterferenceSource for InjectAndObserve {
    fn observe(&mut self, event: &ChannelEvent, _time: SimTime) {
        let (kind, sender) = match event {
            ChannelEvent::TransmissionStarted { sender, .. } => ("started", *sender),
            ChannelEvent::TransmissionCompleted { sender, .. } => ("completed", *sender),
        };
        self.observed.borrow_mut().push(ObservedEvent {
            label: self.label,
            kind,
            sender,
        });
    }

    fn poll_inject(&mut self, _time: SimTime) -> Option<Transmission> {
        self.inject.take()
    }

    fn next_poll_time(&self, _current_time: SimTime) -> Option<SimTime> {
        None
    }
}

#[test]
fn two_interferers_overlap_collide_and_observe_each_other() {
    let observed: Rc<RefCell<Vec<ObservedEvent>>> = Rc::new(RefCell::new(Vec::new()));

    let mut sched = Scheduler::new(300_000);
    let i1 = InjectAndObserve {
        label: "i1",
        inject: Some(tx(7, 868_100_000, 50_000, 14)),
        observed: Rc::clone(&observed),
    };
    let i2 = InjectAndObserve {
        label: "i2",
        inject: Some(tx(7, 868_100_000, 50_000, 14)),
        observed: Rc::clone(&observed),
    };

    sched.add_interferer(Box::new(i1), 0);
    sched.add_interferer(Box::new(i2), 10_000);
    sched.run();

    assert_eq!(
        sched.metrics.total_collisions, 2,
        "two overlapping same-SF/freq/power interferer TXs must both collide"
    );

    assert_eq!(
        sched.metrics.total_airtime_us, 100_000,
        "both 50_000us TXs must contribute to airtime"
    );

    let observed = observed.borrow();
    for label in ["i1", "i2"] {
        let started = observed
            .iter()
            .filter(|e| e.label == label && e.kind == "started")
            .count();
        let completed = observed
            .iter()
            .filter(|e| e.label == label && e.kind == "completed")
            .count();
        assert_eq!(
            started, 2,
            "{label} must observe started for both interferer TXs (got {started})"
        );
        assert_eq!(
            completed, 2,
            "{label} must observe completed for both interferer TXs (got {completed})"
        );
    }

    let senders_seen: Vec<NodeId> = observed.iter().map(|e| e.sender).collect();
    assert!(
        senders_seen.contains(&NodeId(u32::MAX)),
        "events from the first interferer (synthetic id u32::MAX) must be observed; saw: {senders_seen:?}"
    );
    assert!(
        senders_seen.contains(&NodeId(u32::MAX - 1)),
        "events from the second interferer (synthetic id u32::MAX - 1) must be observed; saw: {senders_seen:?}"
    );
}

#[test]
fn two_interferers_different_sf_do_not_collide_but_observe() {
    let observed: Rc<RefCell<Vec<ObservedEvent>>> = Rc::new(RefCell::new(Vec::new()));

    let mut sched = Scheduler::new(300_000);
    sched.add_interferer(
        Box::new(InjectAndObserve {
            label: "i1",
            inject: Some(tx(7, 868_100_000, 50_000, 14)),
            observed: Rc::clone(&observed),
        }),
        0,
    );
    sched.add_interferer(
        Box::new(InjectAndObserve {
            label: "i2",
            inject: Some(tx(8, 868_100_000, 50_000, 14)),
            observed: Rc::clone(&observed),
        }),
        10_000,
    );
    sched.run();

    assert_eq!(
        sched.metrics.total_collisions, 0,
        "different-SF interferer TXs must not collide"
    );

    let observed = observed.borrow();
    for label in ["i1", "i2"] {
        let started = observed
            .iter()
            .filter(|e| e.label == label && e.kind == "started")
            .count();
        assert_eq!(
            started, 2,
            "{label} must observe both starts even when SFs are orthogonal (got {started})"
        );
    }
}
