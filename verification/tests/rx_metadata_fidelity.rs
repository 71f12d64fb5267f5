use std::cell::RefCell;
use std::rc::Rc;

use theatron::channel::{Channel, ChannelConfig};
use theatron::scheduler::{NodeHandle, Scheduler};
use theatron::time::SimTime;
use theatron::traits::InterferenceSource;
use theatron::types::{ChannelEvent, NodeId, RxMetadata, Transmission};

fn make_tx(payload: Vec<u8>, sf: u8, freq: u32, dur: u64, power: i8) -> Transmission {
    Transmission {
        payload,
        sf,
        bandwidth: 125_000,
        coding_rate: 5,
        frequency: freq,
        duration_us: dur,
        tx_power_dbm: power,
    }
}

struct RecordingReceiver {
    id: NodeId,
    received: Rc<RefCell<Vec<RxMetadata>>>,
}

impl NodeHandle for RecordingReceiver {
    fn node_id(&self) -> NodeId {
        self.id
    }
    fn on_receive(&mut self, frame: RxMetadata, _time: SimTime) -> Option<SimTime> {
        self.received.borrow_mut().push(frame);
        None
    }
    fn poll_transmit(&mut self, _time: SimTime) -> Option<Transmission> {
        None
    }
    fn update(&mut self, _time: SimTime) -> Option<SimTime> {
        None
    }
}

struct OneShotSender {
    id: NodeId,
    tx: Option<Transmission>,
}

impl NodeHandle for OneShotSender {
    fn node_id(&self) -> NodeId {
        self.id
    }
    fn on_receive(&mut self, _frame: RxMetadata, _time: SimTime) -> Option<SimTime> {
        None
    }
    fn poll_transmit(&mut self, _time: SimTime) -> Option<Transmission> {
        self.tx.take()
    }
    fn update(&mut self, _time: SimTime) -> Option<SimTime> {
        None
    }
}

struct OneShotInterferer {
    tx: Option<Transmission>,
}

impl InterferenceSource for OneShotInterferer {
    fn observe(&mut self, _event: &ChannelEvent, _time: SimTime) {}
    fn poll_inject(&mut self, _time: SimTime) -> Option<Transmission> {
        self.tx.take()
    }
    fn next_poll_time(&self, _current_time: SimTime) -> Option<SimTime> {
        None
    }
}

#[test]
fn delivered_frame_matches_transmitted_payload_sf_and_frequency() {
    let received = Rc::new(RefCell::new(Vec::new()));

    let mut sched = Scheduler::new(500_000);
    let payload = vec![0x01, 0x02, 0x03, 0x04, 0x05];
    let sender_tx = make_tx(payload.clone(), 9, 868_300_000, 75_000, 14);

    sched.add_node(
        Box::new(OneShotSender {
            id: NodeId(1),
            tx: Some(sender_tx.clone()),
        }),
        Some(0),
    );
    sched.add_node(
        Box::new(RecordingReceiver {
            id: NodeId(2),
            received: Rc::clone(&received),
        }),
        None,
    );
    sched.run();

    let frames = received.borrow();
    assert_eq!(frames.len(), 1, "exactly one frame should be delivered");
    let f = &frames[0];
    assert_eq!(f.payload, payload);
    assert_eq!(f.sf, sender_tx.sf);
    assert_eq!(f.frequency, sender_tx.frequency);

    let cfg = ChannelConfig::lora_defaults();
    let expected_rssi = sender_tx.tx_power_dbm as f32 - db(cfg.path_loss_mdb as i64);
    let expected_snr = expected_rssi - db(cfg.noise_floor_mdbm as i64);
    assert!(
        (db(f.rssi) - expected_rssi).abs() < 1e-3,
        "rssi: got {} expected {}",
        f.rssi,
        expected_rssi
    );
    assert!(
        (db(f.snr) - expected_snr).abs() < 1e-3,
        "snr: got {} expected {}",
        f.snr,
        expected_snr
    );
}

#[test]
fn delivered_frame_time_equals_tx_completion_time() {
    let received = Rc::new(RefCell::new(Vec::new()));
    let mut sched = Scheduler::new(500_000);

    let tx_dur = 50_000u64;
    sched.add_node(
        Box::new(OneShotSender {
            id: NodeId(1),
            tx: Some(make_tx(vec![0xAB], 7, 868_100_000, tx_dur, 14)),
        }),
        Some(0),
    );
    sched.add_node(
        Box::new(RecordingReceiver {
            id: NodeId(2),
            received: Rc::clone(&received),
        }),
        None,
    );
    sched.run();

    let frames = received.borrow();
    assert_eq!(frames.len(), 1);
    assert_eq!(
        frames[0].time, tx_dur,
        "RxMetadata.time must equal the TX completion time"
    );
}

#[test]
fn rssi_and_snr_track_custom_channel_config() {
    let received = Rc::new(RefCell::new(Vec::new()));

    let cfg = ChannelConfig {
        path_loss_mdb: 80_000,
        noise_floor_mdbm: -100_000,
        co_channel_rejection_mdb: 3_000,
    };
    let mut sched = Scheduler::with_channel(500_000, Channel::with_config(cfg.clone()));
    sched.add_node(
        Box::new(OneShotSender {
            id: NodeId(1),
            tx: Some(make_tx(vec![0x01], 7, 868_100_000, 50_000, 0)),
        }),
        Some(0),
    );
    sched.add_node(
        Box::new(RecordingReceiver {
            id: NodeId(2),
            received: Rc::clone(&received),
        }),
        None,
    );
    sched.run();

    let frames = received.borrow();
    assert_eq!(frames.len(), 1);

    assert!((db(frames[0].rssi) - (-80.0)).abs() < 1e-3);
    assert!((db(frames[0].snr) - 20.0).abs() < 1e-3);
}

#[test]
fn captured_frame_carries_strong_senders_metadata() {
    let received = Rc::new(RefCell::new(Vec::new()));
    let mut sched = Scheduler::new(500_000);

    let strong_payload = vec![0xAA, 0xAA, 0xAA, 0xAA];
    let weak_payload = vec![0xBB, 0xBB];
    sched.add_node(
        Box::new(OneShotSender {
            id: NodeId(1),
            tx: Some(make_tx(strong_payload.clone(), 7, 868_100_000, 50_000, 20)),
        }),
        Some(0),
    );
    sched.add_node(
        Box::new(OneShotSender {
            id: NodeId(2),
            tx: Some(make_tx(weak_payload.clone(), 7, 868_100_000, 50_000, 14)),
        }),
        Some(10_000),
    );
    sched.add_node(
        Box::new(RecordingReceiver {
            id: NodeId(3),
            received: Rc::clone(&received),
        }),
        None,
    );
    sched.run();

    let frames = received.borrow();

    assert_eq!(
        sched.metrics.total_captures, 1,
        "expected exactly one capture event"
    );
    assert!(
        !frames.is_empty(),
        "captured frame must reach at least one receiver"
    );
    for f in frames.iter() {
        assert_eq!(
            f.payload, strong_payload,
            "captured frame must carry the strong sender's payload, not the weak one"
        );
    }
}

#[test]
fn interferer_originated_frame_matches_at_receiver() {
    let received = Rc::new(RefCell::new(Vec::new()));
    let mut sched = Scheduler::new(500_000);

    let inj_payload = vec![0xFF, 0xEE, 0xDD];
    let inj_tx = make_tx(inj_payload.clone(), 11, 868_500_000, 200_000, 17);

    sched.add_node(
        Box::new(RecordingReceiver {
            id: NodeId(1),
            received: Rc::clone(&received),
        }),
        None,
    );
    sched.add_interferer(
        Box::new(OneShotInterferer {
            tx: Some(inj_tx.clone()),
        }),
        0,
    );
    sched.run();

    let frames = received.borrow();
    assert_eq!(frames.len(), 1, "interferer TX must reach the receiver");
    let f = &frames[0];
    assert_eq!(f.payload, inj_payload);
    assert_eq!(f.sf, inj_tx.sf);
    assert_eq!(f.frequency, inj_tx.frequency);

    let cfg = ChannelConfig::lora_defaults();
    let expected_rssi = inj_tx.tx_power_dbm as f32 - db(cfg.path_loss_mdb as i64);
    assert!((db(f.rssi) - expected_rssi).abs() < 1e-3);
}

fn db(thousandths: i64) -> f32 {
    thousandths as f32 / 1_000.0
}
