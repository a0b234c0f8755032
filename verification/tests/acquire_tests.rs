use producer::acquire::{samples_from_attempts, temp_samples_from_attempts};
use producer::codec::Reading;
use producer::ds18b20::{parse_w1, Ds18b20};
use producer::sample::{ChannelId, Timestamp};

fn stamp() -> Timestamp {
    Timestamp { year: 2024, month: 6, day: 30, hour: 23, minute: 59, second: 58, nanosecond: 0 }
}

fn humidity_channel() -> ChannelId {
    ChannelId { hi: 1, lo: 2 }
}

fn temperature_channel() -> ChannelId {
    ChannelId { hi: 3, lo: 4 }
}

#[test]
fn success_on_third_attempt_yields_one_reading_of_samples() {
    let reading = Reading { humidity_tenths: 652, temperature_tenths: -260 };
    let attempts = vec![None, None, Some(reading)];
    let samples = samples_from_attempts(
        &attempts,
        humidity_channel(),
        temperature_channel(),
        stamp(),
    );
    assert_eq!(samples.len(), 2);
    assert_eq!(samples[0].channel, humidity_channel());
    assert_eq!(samples[0].milli, 65200);
    assert_eq!(samples[0].stamp, stamp());
    assert_eq!(samples[1].channel, temperature_channel());
    assert_eq!(samples[1].milli, -26000);
    assert_eq!(samples[1].stamp, stamp());
}

#[test]
fn three_failures_yield_no_samples() {
    let attempts: Vec<Option<Reading>> = vec![None, None, None];
    let samples = samples_from_attempts(
        &attempts,
        humidity_channel(),
        temperature_channel(),
        stamp(),
    );
    assert!(samples.is_empty());
}

#[test]
fn first_success_wins_and_later_attempts_are_ignored() {
    let first = Reading { humidity_tenths: 100, temperature_tenths: 10 };
    let later = Reading { humidity_tenths: 900, temperature_tenths: 90 };
    let attempts = vec![Some(first), Some(later)];
    let samples = samples_from_attempts(
        &attempts,
        humidity_channel(),
        temperature_channel(),
        stamp(),
    );
    assert_eq!(samples[0].milli, 10000);
}

#[test]
fn one_wire_success_on_third_attempt_yields_one_sample() {
    let attempts = vec![None, None, Some(25187i64)];
    let samples = temp_samples_from_attempts(&attempts, temperature_channel(), stamp());
    assert_eq!(samples.len(), 1);
    assert_eq!(samples[0].channel, temperature_channel());
    assert_eq!(samples[0].milli, 25187);
}

#[test]
fn one_wire_three_failures_yield_no_samples() {
    let attempts: Vec<Option<i64>> = vec![None, None, None];
    let samples = temp_samples_from_attempts(&attempts, temperature_channel(), stamp());
    assert!(samples.is_empty());
}

#[test]
fn driver_text_parses_millidegrees_from_the_second_line() {
    let text = b"93 01 4b 46 7f ff 0c 10 f6 : crc=f6 YES\n93 01 4b 46 7f ff 0c 10 f6 t=25187"
        .to_vec();
    assert_eq!(parse_w1(&text), Some(25187));
}

#[test]
fn driver_text_with_plus_sign_and_trailing_newline_parses() {
    let text = b"header crc=aa YES\nvalue t=+1500\n".to_vec();
    assert_eq!(parse_w1(&text), Some(1500));
}

#[test]
fn malformed_driver_text_is_a_data_format_error() {
    assert_eq!(parse_w1(&b"single line only".to_vec()), None);
    assert_eq!(parse_w1(&b"line one\n".to_vec()), None);
    assert_eq!(parse_w1(&b"line one\nno separator here".to_vec()), None);
    assert_eq!(parse_w1(&b"line one\nt=".to_vec()), None);
    assert_eq!(parse_w1(&b"line one\nt=12a34".to_vec()), None);
    assert_eq!(parse_w1(&b"line one\nt=-".to_vec()), None);
    assert_eq!(parse_w1(&b"line one\nt=9999999999999999".to_vec()), None);
}

#[test]
fn negative_millidegrees_parse_to_a_negative_temperature() {
    let text = b"header crc=aa YES\nvalue t=-25187\n".to_vec();
    assert_eq!(parse_w1(&text), Some(-25187));
    let samples = temp_samples_from_attempts(
        &vec![Some(-25187i64)],
        temperature_channel(),
        stamp(),
    );
    assert_eq!(samples[0].milli, -25187);
}

#[test]
fn device_identity_is_kept() {
    let sensor = Ds18b20::new("28-0316a2799fff");
    assert_eq!(sensor.id, "28-0316a2799fff");
}
