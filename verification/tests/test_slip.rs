use logan::sm::apply;
use logan::sm::slip;
use logan::sm::Push;

fn rfc_like() -> slip::Config {
    slip::Config { end: 0x0D, esc: 0x0C, esc_end: 0x0B, esc_esc: 0x0A }
}

fn decode(config: slip::Config, bytes: &[u8]) -> Vec<Vec<u8>> {
    let mut slip = slip::init(config);
    apply(&mut slip, bytes).collect()
}

fn test1() {
    let mut slip = slip::init(slip::Config { end: 0x0D, esc: 0x0C, esc_end: 0x0B, esc_esc: 0x0A });
    let test_data = [0x0D, 1, 2, 3, 0x0D, 4, 5, 6, 0xD];
    let data_out: Vec<Vec<u8>> = apply(&mut slip, &test_data).collect();

    let data_expected: Vec<Vec<u8>> =
        [[].to_vec(), [1, 2, 3].to_vec(), [4, 5, 6].to_vec()].to_vec();

    assert_eq!(data_out, data_expected);

    println!("slip OK");
}

#[test]
fn test_slip_run_tests() {
    test1()
}

#[test]
fn slip_escaped_end_becomes_end() {
    let c = rfc_like();
    assert_eq!(decode(c, &[c.esc, c.esc_end, c.end]), vec![vec![c.end]]);
}

#[test]
fn slip_escaped_esc_becomes_esc() {
    let c = rfc_like();
    assert_eq!(decode(c, &[c.esc, c.esc_esc, c.end]), vec![vec![c.esc]]);
}

#[test]
fn slip_escapes_with_other_marker_values() {
    let c = slip::Config { end: 0xC0, esc: 0xDB, esc_end: 0xDC, esc_esc: 0xDD };
    assert_eq!(decode(c, &[0xDB, 0xDC, 0xC0]), vec![vec![0xC0u8]]);
    assert_eq!(decode(c, &[0xDB, 0xDD, 0xC0]), vec![vec![0xDBu8]]);
    assert_eq!(
        decode(c, &[1, 0xDB, 0xDC, 2, 0xDB, 0xDD, 3, 0xC0]),
        vec![vec![1u8, 0xC0, 2, 0xDB, 3]]
    );
}

#[test]
fn slip_unknown_escape_is_dropped() {
    let c = rfc_like();
    assert_eq!(decode(c, &[1, c.esc, 0x55, 2, c.end]), vec![vec![1u8, 2]]);
}

#[test]
fn slip_escape_swallows_end() {
    // An end marker right after an escape is an unknown escape: it is
    // dropped and ends nothing.
    let c = rfc_like();
    assert_eq!(decode(c, &[1, c.esc, c.end, 2, c.end]), vec![vec![1u8, 2]]);
}

#[test]
fn slip_consecutive_ends_give_empty_packets() {
    let c = rfc_like();
    let expected: Vec<Vec<u8>> = vec![vec![], vec![], vec![7], vec![]];
    assert_eq!(decode(c, &[c.end, c.end, 7, c.end, c.end]), expected);
}

#[test]
fn slip_unfinished_packet_is_kept_for_later() {
    let c = rfc_like();
    let mut slip = slip::init(c);
    let first: Vec<Vec<u8>> = apply(&mut slip, &[1u8, 2]).collect();
    assert_eq!(first, Vec::<Vec<u8>>::new());
    let second: Vec<Vec<u8>> = apply(&mut slip, &[3u8, c.end, 4]).collect();
    assert_eq!(second, vec![vec![1u8, 2, 3]]);
    let third: Vec<Vec<u8>> = apply(&mut slip, &[c.end]).collect();
    assert_eq!(third, vec![vec![4u8]]);
}

#[test]
fn slip_takes_the_low_byte_of_a_word() {
    let c = rfc_like();
    let mut slip = slip::init(c);
    assert_eq!(slip.push(0x141usize), None);
    assert_eq!(slip.push(0x10Dusize), Some(vec![0x41u8]));
}

#[test]
fn slip_push_by_push() {
    let c = rfc_like();
    let mut slip = slip::init(c);
    assert_eq!(slip.push(9u8), None);
    assert_eq!(slip.push(c.esc), None);
    assert_eq!(slip.push(c.esc_end), None);
    assert_eq!(slip.push(c.end), Some(vec![9u8, c.end]));
    assert_eq!(slip.push(c.end), Some(vec![]));
}
