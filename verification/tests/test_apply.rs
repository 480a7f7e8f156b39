use logan::sm::diff;
use logan::sm::slip;
use logan::sm::uart;
use logan::sm::apply;

#[test]
fn apply_consumes_nothing_until_asked() {
    let mut d = diff::init();
    let samples: [usize; 4] = [1, 1, 2, 2];
    let run = apply(&mut d, &samples);
    assert_eq!(run.pos, 0);
}

#[test]
fn apply_next_stops_at_the_first_item() {
    let mut d = diff::init();
    let samples: [usize; 7] = [0, 0, 4, 4, 4, 9, 9];
    let mut run = apply(&mut d, &samples);
    let first: Option<usize> = run.next();
    assert_eq!(first, Some(4));
    assert_eq!(run.pos, 3);
    let second: Option<usize> = run.next();
    assert_eq!(second, Some(9));
    assert_eq!(run.pos, 6);
    let third: Option<usize> = run.next();
    assert_eq!(third, None);
    assert_eq!(run.pos, 7);
    let fourth: Option<usize> = run.next();
    assert_eq!(fourth, None);
    assert_eq!(run.pos, 7);
}

#[test]
fn apply_collect_takes_what_is_left() {
    let mut d = diff::init();
    let samples: [usize; 6] = [1, 2, 2, 3, 3, 4];
    let mut run = apply(&mut d, &samples);
    let first: Option<usize> = run.next();
    assert_eq!(first, Some(1));
    let rest: Vec<usize> = run.collect();
    assert_eq!(rest, vec![2usize, 3, 4]);
}

#[test]
fn apply_on_no_input() {
    let mut d = diff::init();
    let samples: [usize; 0] = [];
    let out: Vec<usize> = apply(&mut d, &samples).collect();
    assert_eq!(out, Vec::<usize>::new());
}

#[test]
fn apply_leaves_the_decoder_where_the_run_stopped() {
    // Stop in the middle of a frame and go on in a second run.
    let mut uart = uart::init(uart::Config { period: 1, nb_bits: 8, channel: 0 });
    let first: Vec<usize> = apply(&mut uart, &[0usize, 1, 1, 0, 0]).collect();
    assert_eq!(first, Vec::<usize>::new());
    assert_eq!(uart.state.bit, 4);
    let second: Vec<usize> = apply(&mut uart, &[0usize, 0, 1, 0, 1]).collect();
    assert_eq!(second, vec![0x43usize]);
}

#[test]
fn apply_slip_over_uart() {
    let mut uart = uart::init(uart::Config { period: 1, nb_bits: 8, channel: 0 });
    let mut slip =
        slip::init(slip::Config { end: 0x0D, esc: 0x0C, esc_end: 0x0B, esc_esc: 0x0A });
    let mut samples: Vec<usize> = Vec::new();
    for byte in [0x41usize, 0x0C, 0x0B, 0x42, 0x0D] {
        let frame = uart::frame(8, byte);
        for shift in 0..10 {
            samples.push((frame >> shift) & 1);
        }
    }
    let bytes: Vec<usize> = apply(&mut uart, &samples).collect();
    assert_eq!(bytes, vec![0x41usize, 0x0C, 0x0B, 0x42, 0x0D]);
    let packets: Vec<Vec<u8>> = apply(&mut slip, &bytes).collect();
    assert_eq!(packets, vec![vec![0x41u8, 0x0D, 0x42]]);
}
