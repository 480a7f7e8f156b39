use logan::sm::diff;
use logan::sm::{apply, Push};

#[test]
fn diff_same_sample_twice_is_silent() {
    let mut d = diff::init();
    assert_eq!(d.push(0x12usize), Some(0x12));
    assert_eq!(d.push(0x12usize), None);
}

#[test]
fn diff_run_of_equal_samples_emits_once() {
    let mut d = diff::init();
    assert_eq!(d.push(3usize), Some(3));
    let samples: Vec<usize> = vec![7; 50];
    let out: Vec<usize> = apply(&mut d, &samples).collect();
    assert_eq!(out, vec![7usize]);
}

#[test]
fn diff_starts_from_the_zero_word() {
    let mut d = diff::init();
    assert_eq!(d.push(0usize), None);
    assert_eq!(d.push(0usize), None);
    assert_eq!(d.push(1usize), Some(1));
    assert_eq!(d.push(0usize), Some(0));
}

#[test]
fn diff_emits_every_change() {
    let mut d = diff::init();
    let samples: [u8; 10] = [0, 1, 1, 3, 3, 3, 2, 2, 0, 0];
    let out: Vec<usize> = apply(&mut d, &samples).collect();
    assert_eq!(out, vec![1usize, 3, 2, 0]);
}

#[test]
fn diff_sees_a_change_on_any_channel() {
    let mut d = diff::init();
    let high: usize = 1 << (usize::BITS - 1);
    assert_eq!(d.push(high), Some(high));
    assert_eq!(d.push(high | 1), Some(high | 1));
    assert_eq!(d.push(high | 1), None);
    assert_eq!(d.push(1usize), Some(1));
}

#[test]
fn diff_as_a_stage_before_uart() {
    // A filter keeps its memory from one buffer to the next.
    let mut d = diff::init();
    let first: Vec<usize> = apply(&mut d, &[5usize, 5, 5]).collect();
    let second: Vec<usize> = apply(&mut d, &[5usize, 6, 6]).collect();
    assert_eq!(first, vec![5usize]);
    assert_eq!(second, vec![6usize]);
}
