use producer::codec::{calc_checksum, decode_frame, frame_from_events, BitEvent, DhtError};

fn frame_with_checksum(b0: u8, b1: u8, b2: u8, b3: u8) -> Vec<u8> {
    let sum = (b0 as u16 + b1 as u16 + b2 as u16 + b3 as u16 & 0xff) as u8;
    vec![b0, b1, b2, b3, sum]
}

#[test]
fn checksum_is_low_byte_of_sum() {
    let buf = vec![0x02u8, 0x8c, 0x01, 0x04, 0x00];
    assert_eq!(calc_checksum(&buf), 0x93);
    let buf = vec![0xffu8, 0xff, 0xff, 0xff, 0x00];
    assert_eq!(calc_checksum(&buf), 0xfc);
}

#[test]
fn valid_frame_decodes_humidity_and_temperature() {
    // humidity bytes 0x02 0x8C = 652 tenths, temperature bytes 0x01 0x04 = 260 tenths
    let frame = frame_with_checksum(0x02, 0x8c, 0x01, 0x04);
    let reading = decode_frame(&frame).unwrap();
    assert_eq!(reading.humidity_tenths, 652);
    assert_eq!(reading.temperature_tenths, 260);
}

#[test]
fn sign_bit_negates_temperature() {
    let frame = frame_with_checksum(0x02, 0x8c, 0x81, 0x04);
    let reading = decode_frame(&frame).unwrap();
    assert_eq!(reading.temperature_tenths, -260);
}

#[test]
fn corrupted_byte_is_rejected_as_checksum_mismatch() {
    let mut frame = frame_with_checksum(0x02, 0x8c, 0x01, 0x04);
    frame[1] = frame[1] ^ 0x01;
    match decode_frame(&frame) {
        Err(DhtError::ChecksumMismatch(expected, calculated)) => {
            assert_eq!(expected, 0x93);
            assert_eq!(calculated, 0x94);
        },
        other => panic!("expected a checksum mismatch, got {:?}", other),
    }
}

#[test]
fn out_of_range_humidity_is_invalid_even_with_good_checksum() {
    // 0x05DC = 1500 tenths = 150.0 percent
    let frame = frame_with_checksum(0x05, 0xdc, 0x01, 0x04);
    assert!(matches!(decode_frame(&frame), Err(DhtError::InvalidData)));
}

#[test]
fn humidity_of_exactly_one_hundred_percent_is_accepted() {
    // 0x03E8 = 1000 tenths = 100.0 percent
    let frame = frame_with_checksum(0x03, 0xe8, 0x00, 0x00);
    let reading = decode_frame(&frame).unwrap();
    assert_eq!(reading.humidity_tenths, 1000);
    assert_eq!(reading.temperature_tenths, 0);
}

#[test]
fn error_descriptions_match_the_operator_log_texts() {
    assert_eq!(DhtError::NotPresent.describe(), "DHT device not found");
    assert_eq!(
        DhtError::ChecksumMismatch(0x93, 0x2a).describe(),
        "Data read was corrupt (expected checksum 93, calculated 2a)"
    );
    assert_eq!(
        DhtError::ChecksumMismatch(5, 0).describe(),
        "Data read was corrupt (expected checksum 5, calculated 0)"
    );
    assert_eq!(DhtError::InvalidData.describe(), "Received data is out of range");
    assert_eq!(
        DhtError::TimeoutPost50us(39).describe(),
        "Timed out waiting for a read: post 50us, 39"
    );
    assert_eq!(DhtError::TimeoutBit(5).describe(), "Timed out waiting for a read: bit, 5");
}

fn pulses_for_frame(frame: [u8; 5]) -> Vec<BitEvent> {
    let mut events = Vec::new();
    for byte in frame.iter() {
        for k in 0..8 {
            let bit = (byte >> (7 - k)) & 1;
            events.push(BitEvent::Pulse(if bit == 1 { 70 } else { 25 }));
        }
    }
    events
}

#[test]
fn forty_pulses_pack_msb_first() {
    let events = pulses_for_frame([0x02, 0x8c, 0x01, 0x04, 0x93]);
    let frame = frame_from_events(&events).unwrap();
    assert_eq!(frame, vec![0x02, 0x8c, 0x01, 0x04, 0x93]);
}

#[test]
fn boundary_pulse_of_30_micros_is_a_zero_bit() {
    let mut events = Vec::new();
    events.push(BitEvent::Pulse(31));
    for _ in 0..39 {
        events.push(BitEvent::Pulse(30));
    }
    let frame = frame_from_events(&events).unwrap();
    assert_eq!(frame, vec![0x80, 0x00, 0x00, 0x00, 0x00]);
}

#[test]
fn never_going_high_reports_the_right_bit_index() {
    let mut events = pulses_for_frame([0x02, 0x8c, 0x01, 0x04, 0x93]);
    events.truncate(39);
    events.push(BitEvent::HighTimeout);
    assert!(matches!(
        frame_from_events(&events),
        Err(DhtError::TimeoutPost50us(39))
    ));

    let events = vec![BitEvent::HighTimeout];
    assert!(matches!(
        frame_from_events(&events),
        Err(DhtError::TimeoutPost50us(0))
    ));
}

#[test]
fn never_returning_low_reports_the_right_bit_index() {
    let mut events = pulses_for_frame([0x02, 0x8c, 0x01, 0x04, 0x93]);
    events.truncate(5);
    events.push(BitEvent::LowTimeout);
    assert!(matches!(
        frame_from_events(&events),
        Err(DhtError::TimeoutBit(5))
    ));
}
