use producer::pipeline::{parse_cache, render_entries, undelivered};
use producer::sample::{ChannelId, Sample, Timestamp};

fn stamp() -> Timestamp {
    Timestamp { year: 2024, month: 1, day: 2, hour: 3, minute: 4, second: 5, nanosecond: 6 }
}

fn sample_a() -> Sample {
    Sample {
        channel: ChannelId { hi: 0x0123456789abcdef, lo: 0xfedcba9876543210 },
        stamp: stamp(),
        milli: 65200,
    }
}

fn sample_b() -> Sample {
    Sample {
        channel: ChannelId { hi: 0x00000000000000aa, lo: 0xbb00000000000000 },
        stamp: stamp(),
        milli: -26000,
    }
}

#[test]
fn one_entry_renders_to_the_expected_line() {
    let text = render_entries(&vec![sample_a()]);
    let expected = b"01234567-89ab-cdef-fedc-ba9876543210;2024-01-02T03:04:05.000000006Z;65.2\n";
    assert_eq!(text, expected.to_vec());
}

#[test]
fn negative_value_renders_without_fraction_when_whole() {
    let text = render_entries(&vec![sample_b()]);
    let expected = b"00000000-0000-00aa-bb00-000000000000;2024-01-02T03:04:05.000000006Z;-26\n";
    assert_eq!(text, expected.to_vec());
}

#[test]
fn value_fraction_keeps_three_digits_when_needed() {
    let mut s = sample_a();
    s.milli = 25187;
    let text = render_entries(&vec![s]);
    let line = String::from_utf8(text).unwrap();
    assert!(line.ends_with(";25.187\n"));
    s.milli = 250;
    let text = render_entries(&vec![s]);
    let line = String::from_utf8(text).unwrap();
    assert!(line.ends_with(";0.25\n"));
}

#[test]
fn rendering_then_parsing_returns_the_same_samples() {
    let samples = vec![sample_a(), sample_b()];
    let text = render_entries(&samples);
    let parsed = parse_cache(&text).unwrap();
    assert_eq!(parsed.len(), 2);
    assert_eq!(parsed[0].channel, samples[0].channel);
    assert_eq!(parsed[0].stamp, samples[0].stamp);
    assert_eq!(parsed[0].milli, samples[0].milli);
    assert_eq!(parsed[1], samples[1]);
}

#[test]
fn lines_without_three_fields_are_skipped() {
    let mut text = b"not an entry\n\n".to_vec();
    text.extend_from_slice(&render_entries(&vec![sample_a()]));
    let parsed = parse_cache(&text).unwrap();
    assert_eq!(parsed, vec![sample_a()]);
}

#[test]
fn a_three_field_line_that_does_not_parse_is_an_error() {
    let text = b"a;b;c\n".to_vec();
    assert!(parse_cache(&text).is_none());
}

#[test]
fn an_out_of_range_timestamp_field_is_an_error() {
    let mut text = render_entries(&vec![sample_a()]);
    // month 01 -> 13
    text[42] = b'3';
    assert!(parse_cache(&text).is_none());
}

#[test]
fn small_negative_values_round_trip() {
    let mut s = sample_a();
    s.milli = -1;
    let text = render_entries(&vec![s]);
    let line = String::from_utf8(text.clone()).unwrap();
    assert!(line.ends_with(";-0.001\n"));
    let parsed = parse_cache(&text).unwrap();
    assert_eq!(parsed[0].milli, -1);
}

#[test]
fn shorter_second_fractions_and_none_at_all_parse() {
    let text =
        b"01234567-89ab-cdef-fedc-ba9876543210;2024-01-02T03:04:05.5Z;1\n".to_vec();
    let parsed = parse_cache(&text).unwrap();
    assert_eq!(parsed[0].stamp.nanosecond, 500_000_000);
    assert_eq!(parsed[0].stamp.second, 5);
    assert_eq!(parsed[0].milli, 1000);

    let text =
        b"01234567-89ab-cdef-fedc-ba9876543210;2024-01-02T03:04:05Z;2.5\n".to_vec();
    let parsed = parse_cache(&text).unwrap();
    assert_eq!(parsed[0].stamp.nanosecond, 0);
    assert_eq!(parsed[0].milli, 2500);
}

#[test]
fn an_empty_second_fraction_is_an_error() {
    let text = b"01234567-89ab-cdef-fedc-ba9876543210;2024-01-02T03:04:05.Z;1\n".to_vec();
    assert!(parse_cache(&text).is_none());
}

#[test]
fn a_final_line_without_a_newline_still_parses() {
    let mut text = render_entries(&vec![sample_a()]);
    text.pop();
    let parsed = parse_cache(&text).unwrap();
    assert_eq!(parsed, vec![sample_a()]);
}

#[test]
fn empty_cache_parses_to_no_samples() {
    let parsed = parse_cache(&Vec::new()).unwrap();
    assert!(parsed.is_empty());
}

#[test]
fn undelivered_keeps_exactly_the_failed_samples_in_order() {
    let samples = vec![sample_a(), sample_b()];
    assert_eq!(undelivered(&samples, &vec![true, false]), vec![sample_b()]);
    assert_eq!(undelivered(&samples, &vec![false, false]), samples);
    assert_eq!(undelivered(&samples, &vec![true, true]), Vec::<Sample>::new());
}

#[test]
fn replay_where_one_entry_fails_rewrites_exactly_that_entry() {
    // cache holds {A, B}; every fresh sample delivered; replaying A succeeds
    // and B fails: the rewritten cache holds exactly {B}
    let cache_text = render_entries(&vec![sample_a(), sample_b()]);
    let cached = parse_cache(&cache_text).unwrap();
    let still_failing = undelivered(&cached, &vec![true, false]);
    let rewritten = render_entries(&still_failing);
    let after = parse_cache(&rewritten).unwrap();
    assert_eq!(after, vec![sample_b()]);
}

#[test]
fn failed_fresh_samples_are_appended_without_touching_prior_entries() {
    let prior = render_entries(&vec![sample_a()]);
    let fresh = vec![sample_b(), sample_a()];
    let failed = undelivered(&fresh, &vec![false, true]);
    let mut combined = prior.clone();
    combined.extend_from_slice(&render_entries(&failed));
    assert!(combined.starts_with(&prior));
    let parsed = parse_cache(&combined).unwrap();
    assert_eq!(parsed, vec![sample_a(), sample_b()]);
}
