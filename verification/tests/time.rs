use theatron::time::{ms_to_sim_time, sim_time_to_ms};

#[test]
fn zero_round_trips() {
    assert_eq!(ms_to_sim_time(0), 0);
    assert_eq!(sim_time_to_ms(0), 0);
}

#[test]
fn one_ms_is_1000_us() {
    assert_eq!(ms_to_sim_time(1), 1_000);
    assert_eq!(sim_time_to_ms(1_000), 1);
}

#[test]
fn ms_to_sim_and_back_is_approx() {
    let mut samples = Samples::new();
    for _ in 0..64 {
        let ms = samples.pick(0, 1_000_000) as u32;

        let sim = ms_to_sim_time(ms);
        let back = sim_time_to_ms(sim);
        assert_eq!(back, ms);
    }
}

#[test]
fn sim_time_monotone() {
    let mut samples = Samples::new();
    for _ in 0..64 {
        let a = samples.pick(0, 1_000_000_000) as u64;
        let b = samples.pick(0, 1_000_000_000) as u64;

        if a <= b {
            assert!(sim_time_to_ms(a) <= sim_time_to_ms(b));
        }
    }
}

struct Samples {
    state: u64,
    round: u64,
}

impl Samples {
    fn new() -> Self {
        Samples { state: 0x9E37_79B9_7F4A_7C15, round: 0 }
    }

    fn next(&mut self) -> u64 {
        self.state ^= self.state << 13;
        self.state ^= self.state >> 7;
        self.state ^= self.state << 17;
        self.state
    }

    fn pick(&mut self, low: i128, high: i128) -> i128 {
        self.round += 1;
        match self.round % 11 {
            1 => low,
            2 => high - 1,
            _ => low + self.next() as i128 % (high - low),
        }
    }
}
