use theatron::aloha::{
    AlohaNode, UniformInterarrivalTraffic, Xorshift64, LORA_FREQUENCY, LORA_SF7_DURATION_US,
};
use theatron::scheduler::NodeHandle;
use theatron::time::SimTime;
use theatron::traits::TrafficModel;
use theatron::types::{NodeId, RxMetadata};

#[test]
fn xorshift_zero_seed_becomes_one() {
    let mut a = Xorshift64::new(0);
    let mut b = Xorshift64::new(1);
    assert_eq!(a.next_u64(), b.next_u64());
}

#[test]
fn xorshift_deterministic() {
    let mut a = Xorshift64::new(42);
    let mut b = Xorshift64::new(42);
    for _ in 0..200 {
        assert_eq!(a.next_u64(), b.next_u64());
    }
}

#[test]
fn xorshift_nonzero_output() {
    let mut rng = Xorshift64::new(1);
    for _ in 0..1_000 {
        assert_ne!(rng.next_u64(), 0);
    }
}

#[test]
fn xorshift_below_range_in_bounds() {
    let mut rng = Xorshift64::new(7);
    let range = 100u64;
    for _ in 0..10_000 {
        assert!(rng.next_u64_below(range) < range);
    }
}

#[test]
fn xorshift_below_zero_range_returns_zero() {
    let mut rng = Xorshift64::new(3);
    assert_eq!(rng.next_u64_below(0), 0);
    assert_eq!(rng.next_u64_below(1), 0);
}

#[test]
fn poisson_first_call_returns_none() {
    let mut t = UniformInterarrivalTraffic::new(1_000_000, 42);
    assert!(t.next_payload(0).is_none());
}

#[test]
fn poisson_eventually_fires() {
    let mut t = UniformInterarrivalTraffic::new(1_000, 42);

    let fired = (0u64..2_000).any(|time| t.next_payload(time).is_some());
    assert!(fired, "traffic model must eventually produce a payload");
}

#[test]
fn poisson_second_packet_after_first() {
    let mut t = UniformInterarrivalTraffic::new(100, 99);

    let first = (0u64..1_000).find(|&time| t.next_payload(time).is_some());
    let first = first.expect("first packet must arrive");

    let second = (first + 1..first + 1_000).find(|&time| t.next_payload(time).is_some());
    assert!(second.is_some(), "second packet must arrive after first");
    assert!(second.unwrap() > first);
}

struct OneShot(Option<Vec<u8>>);
impl TrafficModel for OneShot {
    fn next_payload(&mut self, _time: SimTime) -> Option<Vec<u8>> {
        self.0.take()
    }
}

struct NeverFire;
impl TrafficModel for NeverFire {
    fn next_payload(&mut self, _time: SimTime) -> Option<Vec<u8>> {
        None
    }
}

#[test]
fn idle_node_keeps_waking() {
    let mut node = AlohaNode::new(NodeId(1), NeverFire, 100_000, 1);
    let w1 = node.update(0);
    assert!(w1.is_some());
    let t1 = w1.unwrap();
    assert!(t1 > 0, "should schedule a future wake");
    let w2 = node.update(t1);
    assert!(w2.is_some());
}

#[test]
fn one_shot_produces_transmission() {
    let traffic = OneShot(Some(vec![0xAB]));
    let mut node = AlohaNode::new(NodeId(2), traffic, 100_000, 7);

    let mut time = 0u64;
    let tx = loop {
        let next = node.update(time);
        let t = node.poll_transmit(time);
        if t.is_some() {
            break t;
        }
        time = next.unwrap_or(time + 1_000);
    };
    assert!(tx.is_some());
    let tx = tx.unwrap();
    assert_eq!(tx.payload, vec![0xAB]);
    assert_eq!(tx.sf, 7);
    assert_eq!(tx.frequency, LORA_FREQUENCY);
    assert_eq!(tx.duration_us, LORA_SF7_DURATION_US);
}

#[test]
fn poll_transmit_clears_payload() {
    let traffic = OneShot(Some(vec![0x01]));
    let mut node = AlohaNode::new(NodeId(3), traffic, 0, 5);
    let mut time = 0u64;
    let mut tx_count = 0;
    for _ in 0..200 {
        let next = node.update(time);
        if node.poll_transmit(time).is_some() {
            tx_count += 1;
        }
        time = next.unwrap_or(time + 1_000);
    }
    assert_eq!(tx_count, 1, "one-shot traffic should cause exactly one TX");
}

#[test]
fn backoff_delays_next_tx() {
    struct TwoShot(u8);
    impl TrafficModel for TwoShot {
        fn next_payload(&mut self, _time: SimTime) -> Option<Vec<u8>> {
            if self.0 > 0 {
                self.0 -= 1;
                Some(vec![self.0])
            } else {
                None
            }
        }
    }

    let backoff_range = 500_000u64;
    let mut node = AlohaNode::new(NodeId(4), TwoShot(2), backoff_range, 11);
    let mut tx_times = Vec::new();
    let mut time = 0u64;
    for _ in 0..2_000_000 {
        let next = node.update(time);
        if node.poll_transmit(time).is_some() {
            tx_times.push(time);
        }
        if tx_times.len() == 2 {
            break;
        }
        time = next.unwrap_or(time + 1_000);
    }
    assert_eq!(tx_times.len(), 2, "should see exactly 2 transmissions");

    assert!(
        tx_times[1] >= tx_times[0] + LORA_SF7_DURATION_US,
        "second TX must be at least one TX-duration after the first; \
         first={} second={} duration={}",
        tx_times[0],
        tx_times[1],
        LORA_SF7_DURATION_US
    );
}

#[test]
fn poll_transmit_returns_none_when_not_ready() {
    let mut node = AlohaNode::new(NodeId(5), NeverFire, 0, 1);

    assert!(
        node.poll_transmit(0).is_none(),
        "poll_transmit must return None when not in ReadyToTransmit"
    );
}

#[test]
fn update_returns_same_time_when_ready_to_transmit() {
    let traffic = OneShot(Some(vec![0xFF]));
    let mut node = AlohaNode::new(NodeId(6), traffic, 0, 2);

    let t1 = node.update(0);
    assert_eq!(t1, Some(0), "should wake immediately when ready");

    let t2 = node.update(0);
    assert_eq!(
        t2,
        Some(0),
        "update while ReadyToTransmit must return the same time"
    );

    assert!(
        node.poll_transmit(0).is_some(),
        "payload must survive the extra update call"
    );
}

#[test]
fn backoff_still_waiting_returns_future_wake() {
    let traffic = OneShot(Some(vec![0x42]));

    let mut node = AlohaNode::new(NodeId(7), traffic, 100_000, 3);

    node.update(0);

    let tx = node.poll_transmit(0);
    assert!(tx.is_some());

    let until = node.update(0).expect("must return the backoff deadline");
    assert!(until >= LORA_SF7_DURATION_US, "deadline must be after on-air time");

    let mid = until / 2;
    assert!(mid < until, "mid must be strictly before deadline for this test to be meaningful");
    let again = node.update(mid);
    assert_eq!(
        again,
        Some(until),
        "still-waiting path must return the original deadline"
    );
}

#[test]
fn on_receive_is_noop() {
    let mut node = AlohaNode::new(NodeId(8), NeverFire, 0, 1);
    let frame = RxMetadata {
        payload: vec![0xDE, 0xAD],
        rssi: -90_000,
        snr: 5_000,
        sf: 7,
        frequency: LORA_FREQUENCY,
        time: 0,
    };

    assert!(
        node.on_receive(frame, 0).is_none(),
        "Pure ALOHA on_receive must always return None"
    );

    assert!(
        node.poll_transmit(0).is_none(),
        "on_receive must not trigger a transmission"
    );
}

#[test]
fn on_receive_during_backoff_does_not_alter_schedule() {
    let traffic = OneShot(Some(vec![0x01]));
    let mut node = AlohaNode::new(NodeId(9), traffic, 200_000, 5);

    node.update(0);
    assert!(node.poll_transmit(0).is_some(), "first TX must fire");

    let backoff_until = node.update(0).expect("must return backoff deadline");
    assert!(backoff_until >= LORA_SF7_DURATION_US);

    let frame = RxMetadata {
        payload: vec![0xFF],
        rssi: -80_000,
        snr: 10_000,
        sf: 7,
        frequency: LORA_FREQUENCY,
        time: backoff_until / 2,
    };
    let wake = node.on_receive(frame, backoff_until / 2);
    assert!(
        wake.is_none(),
        "on_receive during backoff must not request a new wake"
    );

    let mid = backoff_until / 2;
    let still_waiting = node.update(mid);
    assert_eq!(
        still_waiting,
        Some(backoff_until),
        "backoff deadline must not be altered by on_receive"
    );
}
