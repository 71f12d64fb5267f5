use rand_core::RngCore;
use theatron::aloha::Xorshift64 as AlohaRng;
use theatron::aloha::{AlohaNode, UniformInterarrivalTraffic, LORA_SF7_DURATION_US};
use theatron::prng::Xorshift64;
use theatron::scheduler::NodeHandle;
use theatron::time::SimTime;
use theatron::traits::TrafficModel;
use theatron::types::NodeId;

#[test]
fn fill_bytes_writes_little_endian_outputs() {
    let mut rng = Xorshift64::new(1);
    let mut bytes = [0u8; 20];
    rng.fill_bytes(&mut bytes);
    assert_eq!(
        bytes,
        [65, 32, 130, 64, 0, 0, 0, 0, 65, 20, 1, 12, 6, 65, 0, 16, 41, 38, 134, 110]
    );
    let mut other = Xorshift64::new(1);
    other.next_u64();
    other.next_u64();
    other.next_u64();
    assert_eq!(rng.next_u64(), other.next_u64());
}

#[test]
fn fill_bytes_of_every_length_takes_one_output_per_eight_bytes() {
    for len in 0..40usize {
        let mut rng = Xorshift64::new(77);
        let mut bytes = vec![0u8; len];
        rng.fill_bytes(&mut bytes);

        let mut reference = Xorshift64::new(77);
        let mut expected: Vec<u8> = Vec::new();
        for _ in 0..(len + 7) / 8 {
            expected.extend_from_slice(&reference.next_u64().to_le_bytes());
        }
        expected.truncate(len);
        assert_eq!(bytes, expected);
        assert_eq!(rng.next_u64(), reference.next_u64());
    }
}

#[test]
fn fill_bytes_of_nothing_keeps_the_state() {
    let mut rng = Xorshift64::new(5);
    let mut untouched = Xorshift64::new(5);
    rng.fill_bytes(&mut []);
    assert_eq!(rng.next_u64(), untouched.next_u64());
}

#[test]
fn next_u32_is_the_low_half() {
    let mut rng = Xorshift64::new(1);
    assert_eq!(rng.next_u32(), 1_082_269_761);
    assert_eq!(rng.next_u32(), 0x0c01_1441);
}

#[test]
fn copies_of_a_generator_run_alike() {
    let mut a = Xorshift64::new(11);
    a.next_u64();
    let mut b = a;
    assert_eq!(a.next_u64(), b.next_u64());

    let mut c = AlohaRng::new(11);
    c.next_u64();
    let mut d = c.clone();
    assert_eq!(c.next_u64(), d.next_u64());
}

#[test]
fn both_generators_step_alike() {
    let mut a = Xorshift64::new(123);
    let mut b = AlohaRng::new(123);
    for _ in 0..100 {
        assert_eq!(a.next_u64(), b.next_u64());
    }
}

#[test]
fn draws_have_known_values() {
    let mut rng = AlohaRng::new(1);
    assert_eq!(rng.next_u64_below(10), 1);
    assert_eq!(rng.next_u64_below(10), 5);
}

#[test]
fn draws_skip_rejected_outputs() {
    let range = (1u64 << 63) + 1;
    let mut rng = AlohaRng::new(1);
    assert_eq!(rng.next_u64_below(range), 1_082_269_761);
    assert_eq!(rng.next_u64_below(range), 1_152_992_998_833_853_505);
    // Six outputs in a row lie above the range.
    assert_eq!(rng.next_u64_below(range), 9_024_654_201_992_055_039);
    assert_eq!(rng.next_u64_below(range), 8_332_670_729_032_836_398);
}

#[test]
fn draws_from_trivial_ranges_keep_the_state() {
    let mut rng = AlohaRng::new(9);
    let mut untouched = AlohaRng::new(9);
    assert_eq!(rng.next_u64_below(0), 0);
    assert_eq!(rng.next_u64_below(1), 0);
    assert_eq!(rng.next_u64(), untouched.next_u64());
}

#[test]
fn draws_from_the_largest_range_are_in_bounds() {
    let mut rng = AlohaRng::new(3);
    for _ in 0..200 {
        assert!(rng.next_u64_below(u64::MAX) < u64::MAX);
    }
}

#[test]
fn intervals_are_successive_draws_from_the_seed() {
    let mut traffic = UniformInterarrivalTraffic::new(1_001, 42);
    let mut rng = AlohaRng::new(42);
    let mut now: SimTime = 7;
    assert_eq!(traffic.next_payload(now), None);
    for _ in 0..50 {
        let offset = rng.next_u64_below(1_001);
        assert!(offset < 1_001);
        let arrival = now + 500 + offset;
        assert_eq!(traffic.next_payload(arrival - 1), None);
        assert_eq!(traffic.next_payload(arrival), Some(vec![1]));
        now = arrival;
    }
}

#[test]
fn packets_with_no_mean_interval_arrive_at_once() {
    let mut traffic = UniformInterarrivalTraffic::new(0, 42);
    assert_eq!(traffic.next_payload(7), None);
    assert_eq!(traffic.next_payload(7), Some(vec![1]));
    assert_eq!(traffic.next_payload(7), Some(vec![1]));
}

struct Endless;

impl TrafficModel for Endless {
    fn next_payload(&mut self, _time: SimTime) -> Option<Vec<u8>> {
        Some(vec![9])
    }
}

#[test]
fn backoffs_are_successive_draws_from_the_seed() {
    for range in [0, 1, 2, 1_000] {
        let mut node = AlohaNode::new(NodeId(1), Endless, range, 5);
        let mut rng = AlohaRng::new(5);
        let mut now: SimTime = 3;
        for _ in 0..20 {
            assert_eq!(node.update(now), Some(now));
            assert!(node.poll_transmit(now).is_some());
            let backoff = rng.next_u64_below(range.max(1));
            let until = now + LORA_SF7_DURATION_US + backoff;
            assert_eq!(node.update(now), Some(until));
            if range <= 1 {
                assert_eq!(backoff, 0);
            }
            now = until;
        }
    }
}
