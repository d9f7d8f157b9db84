use rusty_counter::convert_T2_value;
use rusty_counter::measurement::{Measurement, T2Value, OVERFLOW_PERIOD};

const SPECIAL: u32 = 0x8000_0000;
const MARKER_BITS: u32 = 0x7E00_0000;

fn channel_word(channel: u32, time: u32) -> u32 {
    (channel << 25) | time
}

fn overflow_word(count: u32) -> u32 {
    SPECIAL | MARKER_BITS | count
}

fn sync_word(time: u32) -> u32 {
    SPECIAL | time
}

#[test]
fn decode_channel_event() {
    assert_eq!(
        convert_T2_value(&channel_word(5, 1234)),
        T2Value::Time(5, 1234)
    );
}

#[test]
fn decode_channel_zero() {
    assert_eq!(convert_T2_value(&10), T2Value::Time(0, 10));
}

#[test]
fn decode_overflow_marker() {
    assert_eq!(convert_T2_value(&overflow_word(3)), T2Value::Overflow(3));
}

#[test]
fn decode_sync_event() {
    assert_eq!(convert_T2_value(&sync_word(42)), T2Value::Sync(42));
}

#[test]
fn decode_unhandled_marker() {
    let word = SPECIAL | (1 << 25) | 7;
    assert_eq!(convert_T2_value(&word), T2Value::InternalSync(0));
}

#[test]
fn decode_masks_bit_24_out_of_payload() {
    let word = (1 << 24) | 5;
    assert_eq!(convert_T2_value(&word), T2Value::Time(0, 5));
}

#[test]
fn overflow_composition() {
    let mut measurement = Measurement::new(0);
    let times = measurement.convert_values_T2(&[overflow_word(1), channel_word(0, 10)]);
    assert_eq!(times, vec![(1u8, 33_554_442u64)]);
    assert_eq!(measurement.time_overflow, OVERFLOW_PERIOD);
}

#[test]
fn overflow_only_stream_is_empty() {
    let mut measurement = Measurement::new(0);
    let times =
        measurement.convert_values_T2(&[overflow_word(1), overflow_word(2), overflow_word(3)]);
    assert!(times.is_empty());
    assert_eq!(measurement.time_overflow, 6 * OVERFLOW_PERIOD);
}

#[test]
fn decode_preserves_cardinality() {
    let mut measurement = Measurement::new(0);
    let words = [
        channel_word(0, 1),
        sync_word(2),
        overflow_word(1),
        SPECIAL | (4 << 25) | 9,
        channel_word(3, 9),
    ];
    let times = measurement.convert_values_T2(&words);
    assert_eq!(times.len(), 3);
}

#[test]
fn accumulator_resumes_from_given_epoch() {
    let mut measurement = Measurement::new(5);
    let times = measurement.convert_values_T2(&[sync_word(10)]);
    assert_eq!(times, vec![(0u8, 15u64)]);
}

#[test]
fn try_convert_rejects_epoch_overflow() {
    let mut measurement = Measurement::new(u64::MAX - 1000);
    assert_eq!(measurement.try_convert_values_T2(&[sync_word(1)]), None);
    assert_eq!(measurement.time_overflow, u64::MAX - 1000);
}

#[test]
fn try_convert_accepts_ordinary_burst() {
    let mut measurement = Measurement::new(0);
    let times = measurement.try_convert_values_T2(&[overflow_word(1), channel_word(2, 7)]);
    assert_eq!(times, Some(vec![(3u8, OVERFLOW_PERIOD + 7)]));
}
