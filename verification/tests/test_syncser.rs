use logan::sm::syncser;
use logan::sm::syncser::{init, Config, SyncSer};
use logan::sm::{apply, Push};

fn test_seq(c: Config, data_in: &[usize], period: usize) -> Vec<usize> {
    data_in
        .iter()
        .flat_map(|&data| {
            // expand data word into bits
            (0..c.nb_bits)
                .flat_map(move |shift| {
                    let bit = (data >> (c.nb_bits - 1 - shift)) & 1;
                    // expand bit into clocked bit sequence
                    (0..2).map(move |clock| {
                        (c.frame_active << c.frame_channel)
                            | ((c.clock_polarity ^ clock ^ 1) << c.clock_channel)
                            | (bit << c.data_channel)
                    })
                })
                // follow with 1 bit frame release
                .chain((0..1).map(move |_| {
                    ((c.frame_active ^ 1) << c.frame_channel)
                        | (c.clock_polarity << c.clock_channel)
                }))
        })
        // oversample
        .flat_map(|bus| (0..period).map(move |_| bus))
        .collect()
}

fn test_test_seq(c: &Config) {
    for bus in test_seq(*c, &[0x55], 1) {
        println!("{:01$b}", bus, 3);
    }
}

fn test_vec(syncser: &mut SyncSer, data_in: Vec<usize>, period: usize) {
    let c = syncser.config;
    let stream = test_seq(c, &data_in, period);
    let data_out: Vec<usize> = apply(syncser, &stream).collect();
    assert_eq!(data_out, data_in);
}

fn test_configs() {
    let nb_bits = 8;
    for edge in 0..2 {
        for period in 1..10 {
            let mut syncser = init(Config {
                data_channel: 0,
                clock_channel: 1,
                frame_channel: 2,
                frame_enable: true,
                clock_edge: edge,
                clock_polarity: edge ^ 1,
                frame_active: 0,
                frame_timeout: 0,
                timeout_enable: false,
                nb_bits: nb_bits,
            });
            let n = 1 << nb_bits;
            let s = (0..n).rev();
            test_test_seq(&syncser.config);
            test_vec(&mut syncser, s.collect(), period);
        }
    }
    println!("syncser OK");
}

#[test]
fn test_syncser_run_tests() {
    test_configs()
}

/// Clock on channel 0, data on channel 1: one data bit per rising edge.
fn clocked(bits: &[usize]) -> Vec<usize> {
    let mut samples = Vec::new();
    for bit in bits {
        samples.push(bit << 1);
        samples.push((bit << 1) | 1);
    }
    samples
}

#[test]
fn syncser_default_config() {
    let c = syncser::config();
    assert_eq!(c.clock_channel, 0);
    assert_eq!(c.data_channel, 1);
    assert_eq!(c.frame_channel, 0);
    assert_eq!(c.clock_edge, 1);
    assert_eq!(c.clock_polarity, 0);
    assert_eq!(c.frame_active, 0);
    assert_eq!(c.frame_timeout, 0);
    assert_eq!(c.nb_bits, 8);
    assert!(!c.frame_enable);
    assert!(!c.timeout_enable);
}

#[test]
fn syncser_init_registers() {
    let s = init(Config { clock_polarity: 1, frame_active: 1, ..syncser::config() });
    assert_eq!(s.state.clock_state, 1);
    assert_eq!(s.state.frame_state, !1usize);
    assert_eq!(s.state.shift_count, 0);
    assert_eq!(s.state.shift_reg, 0);
    assert_eq!(s.state.frame_timeout_state, 0);
}

#[test]
fn syncser_first_bit_is_highest() {
    let mut s = init(syncser::config());
    let out: Vec<usize> = apply(&mut s, &clocked(&[1, 0, 1, 1, 0, 0, 0, 1])).collect();
    assert_eq!(out, vec![0b1011_0001usize]);
}

#[test]
fn syncser_words_are_edges_over_word_length() {
    // 21 sampling edges, words of 4 bits: 5 words, 1 bit left over.
    let bits: Vec<usize> = (0..21).map(|i| (i / 2) & 1).collect();
    let mut s = init(Config { nb_bits: 4, ..syncser::config() });
    let out: Vec<usize> = apply(&mut s, &clocked(&bits)).collect();
    assert_eq!(out.len(), 21 / 4);
    assert_eq!(out, vec![0b0011usize, 0b0011, 0b0011, 0b0011, 0b0011]);
    assert_eq!(s.state.shift_count, 21 % 4);
}

#[test]
fn syncser_oversampling_adds_no_edges() {
    let bits: [usize; 8] = [0, 1, 1, 0, 1, 0, 0, 1];
    let mut stream = Vec::new();
    for sample in clocked(&bits) {
        for _ in 0..5 {
            stream.push(sample);
        }
    }
    let mut s = init(syncser::config());
    let out: Vec<usize> = apply(&mut s, &stream).collect();
    assert_eq!(out, vec![0b0110_1001usize]);
}

#[test]
fn syncser_falling_edge() {
    // Clock idles high; data is taken when the clock falls.
    let mut s = init(Config { clock_edge: 0, clock_polarity: 1, nb_bits: 2, ..syncser::config() });
    let samples: [usize; 5] = [0b01, 0b10, 0b11, 0b00, 0b01];
    let out: Vec<usize> = apply(&mut s, &samples).collect();
    assert_eq!(out, vec![0b10usize]);
}

#[test]
fn syncser_ignores_clock_outside_frame() {
    // Frame on channel 2, active low.
    let c = Config {
        frame_channel: 2,
        frame_enable: true,
        frame_active: 0,
        nb_bits: 2,
        ..syncser::config()
    };
    let mut s = init(c);
    // Two edges with the frame released, then a frame with two edges.
    let samples: [usize; 8] = [0b100, 0b111, 0b100, 0b111, 0b000, 0b011, 0b000, 0b001];
    let out: Vec<usize> = apply(&mut s, &samples).collect();
    assert_eq!(out, vec![0b10usize]);
}

#[test]
fn syncser_new_frame_drops_collected_bits() {
    let c = Config {
        frame_channel: 2,
        frame_enable: true,
        frame_active: 0,
        nb_bits: 2,
        ..syncser::config()
    };
    let mut s = init(c);
    // One bit in a first frame, release, then a full word in a second.
    let samples: [usize; 8] = [0b000, 0b011, 0b100, 0b000, 0b001, 0b000, 0b011, 0b000];
    let out: Vec<usize> = apply(&mut s, &samples).collect();
    assert_eq!(out, vec![0b01usize]);
}

#[test]
fn syncser_timeout_drops_collected_bits() {
    let c = Config { frame_timeout: 3, timeout_enable: true, nb_bits: 2, ..syncser::config() };
    let mut s = init(c);
    // The countdown starts at the first tick and runs out four ticks
    // later: the bit taken at the second tick is lost.
    assert_eq!(s.push(0b00usize), None);
    assert_eq!(s.state.frame_timeout_state, 3);
    assert_eq!(s.push(0b11usize), None);
    assert_eq!(s.state.shift_count, 1);
    assert_eq!(s.push(0b00usize), None);
    assert_eq!(s.push(0b00usize), None);
    assert_eq!(s.state.frame_timeout_state, 0);
    assert_eq!(s.push(0b00usize), None);
    assert_eq!(s.state.shift_count, 0);
    assert_eq!(s.state.frame_timeout_state, 3);
    // A word that comes in time is emitted and restarts the countdown.
    assert_eq!(s.push(0b11usize), None);
    assert_eq!(s.push(0b00usize), None);
    assert_eq!(s.push(0b01usize), Some(0b10));
    assert_eq!(s.state.frame_timeout_state, 3);
}

#[test]
fn syncser_timeout_of_zero_is_off() {
    let c = Config { frame_timeout: 0, timeout_enable: true, nb_bits: 2, ..syncser::config() };
    let mut s = init(c);
    let samples: [usize; 12] = [0, 0b11, 0, 0, 0, 0, 0, 0, 0, 0, 0b01, 0];
    let out: Vec<usize> = apply(&mut s, &samples).collect();
    assert_eq!(out, vec![0b10usize]);
}
