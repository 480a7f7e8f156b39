use logan::signal::word_bits;

fn drain(nb_bits: usize, period: usize, value: usize) -> Vec<usize> {
    let mut sr = word_bits(nb_bits, period, value);
    let mut out = Vec::new();
    while let Some(bit) = sr.next() {
        out.push(bit);
    }
    out
}

#[test]
fn signal_bits_come_lowest_first() {
    assert_eq!(drain(4, 1, 0b0101), vec![1usize, 0, 1, 0]);
    assert_eq!(drain(8, 1, 0x80), vec![0usize, 0, 0, 0, 0, 0, 0, 1]);
}

#[test]
fn signal_every_bit_is_held_for_a_period() {
    assert_eq!(drain(3, 2, 0b110), vec![0usize, 0, 1, 1, 1, 1]);
    assert_eq!(drain(2, 3, 0b01), vec![1usize, 1, 1, 0, 0, 0]);
    assert_eq!(drain(9, 7, 0x1FF).len(), 63);
}

#[test]
fn signal_without_bits_is_empty() {
    assert_eq!(drain(0, 3, 0xFF), Vec::<usize>::new());
}

#[test]
fn signal_stays_at_the_end() {
    let mut sr = word_bits(1, 2, 1);
    assert_eq!(sr.next(), Some(1));
    assert_eq!(sr.next(), Some(1));
    for _ in 0..10 {
        assert_eq!(sr.next(), None);
    }
}

#[test]
fn signal_drops_bits_above_the_count() {
    assert_eq!(drain(2, 1, 0b1110), vec![0usize, 1]);
}
