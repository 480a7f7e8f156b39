use logan::bus::Bus;

#[test]
fn bus_channel_of_a_byte() {
    let sample: u8 = 0b1010_0110;
    let levels: Vec<usize> = (0..8).map(|c| sample.channel(c)).collect();
    assert_eq!(levels, vec![0usize, 1, 1, 0, 0, 1, 0, 1]);
    assert_eq!(sample.as_usize(), 0xA6);
}

#[test]
fn bus_channel_of_a_word() {
    let top = (usize::BITS - 1) as usize;
    let sample: usize = (1 << top) | 0b100;
    assert_eq!(sample.channel(0), 0);
    assert_eq!(sample.channel(2), 1);
    assert_eq!(sample.channel(top), 1);
    assert_eq!(sample.channel(top - 1), 0);
    assert_eq!(sample.as_usize(), sample);
}

#[test]
fn bus_channel_of_a_signed_sample() {
    let sample: i32 = 0b0101;
    assert_eq!(sample.channel(0), 1);
    assert_eq!(sample.channel(1), 0);
    assert_eq!(sample.channel(2), 1);
    assert_eq!(sample.as_usize(), 5);
    let negative: i32 = -2;
    assert_eq!(negative.channel(0), 0);
    assert_eq!(negative.channel(1), 1);
    assert_eq!(negative.channel(31), 1);
    assert_eq!(negative.as_usize(), usize::MAX - 1);
}

#[test]
fn bus_through_a_reference() {
    let sample: u8 = 0x81;
    let by_ref: &u8 = &sample;
    assert_eq!(Bus::channel(&by_ref, 0), 1);
    assert_eq!(Bus::channel(&by_ref, 1), 0);
    assert_eq!(Bus::channel(&by_ref, 7), 1);
    assert_eq!(Bus::as_usize(&by_ref), 0x81);
}
