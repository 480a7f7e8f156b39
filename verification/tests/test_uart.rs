use logan::signal::word_bits;
use logan::sm::uart;
use logan::sm::{apply, Push};

fn frame(nb_bits: usize, value: usize) -> usize {
    (value | (1 << nb_bits)) << 1
}

fn test_vec(uart: &mut uart::Uart, data_in: Vec<usize>) {
    let c = uart.config;

    // expand data word to UART frame bit sequence
    let data_bits = data_in
        .iter()
        .flat_map(|&data| (0..c.nb_bits + 2).map(move |shift| (frame(c.nb_bits, data) >> shift) & 1));

    // shift it to the correct channel on the bus
    let data_channel = data_bits.map(|bit| bit << c.channel);

    // oversample bus sequence
    let data_oversample: Vec<usize> =
        data_channel.flat_map(|bus| (0..c.period).map(move |_| bus)).collect();

    // decode it
    let data_out: Vec<usize> = apply(uart, &data_oversample).collect();

    assert_eq!(data_out, data_in);
}

fn test_configs() {
    for period in 1..20 {
        println!("{} {}", period, uart::start_delay(period));
    }

    for nb_bits in 7..10 {
        for channel in 0..3 {
            for period in 1..10 {
                let mut uart =
                    uart::init(uart::Config { period: period, nb_bits: nb_bits, channel: channel });
                let n = 1 << nb_bits;
                let s = (0..n).rev();
                test_vec(&mut uart, s.collect());
            }
        }
    }
    println!("uart OK");
}

#[test]
fn test_uart_run_tests() {
    test_configs()
}

#[test]
fn uart_start_delay_values() {
    let expected: [usize; 12] = [0, 1, 3, 5, 7, 8, 10, 12, 14, 15, 17, 19];
    for period in 1..13 {
        assert_eq!(uart::start_delay(period), expected[period - 1]);
    }
    assert_eq!(uart::start_delay(17), 16 + 8 + 4);
    assert_eq!(uart::start_delay(1000), 999 + 499 + 250);
}

#[test]
fn uart_frame_values() {
    assert_eq!(uart::frame(8, 0x00), 0b10_0000_0000);
    assert_eq!(uart::frame(8, 0xFF), 0b11_1111_1110);
    assert_eq!(uart::frame(8, 0x41), 0b10_1000_0010);
    assert_eq!(uart::frame(7, 0x55), 0b1_1010_1010);
    assert_eq!(uart::frame(8, 0xA5), frame(8, 0xA5));
}

#[test]
fn uart_single_frame_tick_by_tick() {
    // Period 1: start bit, eight data bits LSB first, stop bit.
    let mut uart = uart::init(uart::Config { period: 1, nb_bits: 8, channel: 0 });
    let bits: [usize; 10] = [0, 1, 0, 1, 0, 0, 1, 0, 1, 1];
    for bit in &bits[..9] {
        assert_eq!(uart.push(*bit), None);
    }
    assert_eq!(uart.push(bits[9]), Some(0b1010_0101));
    assert!(matches!(uart.state.mode, uart::Mode::Idle));
}

#[test]
fn uart_samples_the_configured_channel_only() {
    let mut uart = uart::init(uart::Config { period: 1, nb_bits: 8, channel: 2 });
    // Channel 2 carries 0x5A; the other channels carry noise.
    let samples: [usize; 10] =
        [0b011, 0b000, 0b111, 0b010, 0b101, 0b100, 0b011, 0b110, 0b001, 0b111];
    let out: Vec<usize> = apply(&mut uart, &samples).collect();
    assert_eq!(out, vec![0x5Ausize]);
}

#[test]
fn uart_idle_line_gives_nothing() {
    let mut uart = uart::init(uart::Config { period: 4, nb_bits: 8, channel: 0 });
    let samples: Vec<usize> = vec![1; 100];
    let out: Vec<usize> = apply(&mut uart, &samples).collect();
    assert_eq!(out, Vec::<usize>::new());
    assert!(matches!(uart.state.mode, uart::Mode::Idle));
}

#[test]
fn uart_break_is_held_until_line_is_high() {
    let mut uart = uart::init(uart::Config { period: 1, nb_bits: 8, channel: 0 });
    // Start bit, eight zero data bits, stop bit low.
    for _ in 0..10 {
        assert_eq!(uart.push(0usize), None);
    }
    assert!(matches!(uart.state.mode, uart::Mode::Break));
    assert_eq!(uart.push(0usize), None);
    assert!(matches!(uart.state.mode, uart::Mode::Break));
    assert_eq!(uart.push(1usize), None);
    assert!(matches!(uart.state.mode, uart::Mode::Idle));
}

#[test]
fn uart_frame_error_when_stop_bit_is_low() {
    let mut uart = uart::init(uart::Config { period: 1, nb_bits: 8, channel: 0 });
    let bits: [usize; 10] = [0, 1, 0, 0, 0, 0, 0, 0, 0, 0];
    for bit in &bits {
        assert_eq!(uart.push(*bit), None);
    }
    assert!(matches!(uart.state.mode, uart::Mode::FrameErr));
    assert_eq!(uart.state.reg, 1);
    assert_eq!(uart.push(1usize), None);
    assert!(matches!(uart.state.mode, uart::Mode::Idle));
    // The framer decodes the next frame as usual.
    let next: [usize; 10] = [0, 0, 1, 0, 0, 0, 0, 0, 0, 1];
    let out: Vec<usize> = apply(&mut uart, &next).collect();
    assert_eq!(out, vec![2usize]);
}

#[test]
fn uart_bytes_on_a_byte_wide_bus() {
    let mut uart = uart::init(uart::Config { period: 2, nb_bits: 8, channel: 7 });
    let mut samples: Vec<u8> = Vec::new();
    for word in [0x31usize, 0x32, 0x33] {
        let mut bits = word_bits(10, 2, uart::frame(8, word));
        while let Some(bit) = bits.next() {
            samples.push((bit as u8) << 7);
        }
    }
    let out: Vec<usize> = apply(&mut uart, &samples).collect();
    assert_eq!(out, vec![0x31usize, 0x32, 0x33]);
}

#[test]
fn uart_round_trip_with_long_periods() {
    for period in [16usize, 17, 33, 100] {
        let mut uart = uart::init(uart::Config { period, nb_bits: 8, channel: 1 });
        test_vec(&mut uart, vec![0x00, 0xFF, 0x55, 0xAA, 0x01, 0x80]);
    }
}

#[test]
fn uart_init_starts_idle() {
    let uart = uart::init(uart::Config { period: 3, nb_bits: 7, channel: 1 });
    assert_eq!(uart.config.period, 3);
    assert_eq!(uart.config.nb_bits, 7);
    assert_eq!(uart.config.channel, 1);
    assert_eq!(uart.state.reg, 0);
    assert_eq!(uart.state.bit, 0);
    assert_eq!(uart.state.skip, 0);
    assert!(matches!(uart.state.mode, uart::Mode::Idle));
}
