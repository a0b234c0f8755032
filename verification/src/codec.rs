//! Pure decoding layer of the single-wire sensor protocol: turning the timed
//! per-bit line events of one read attempt into a validated reading.

use vstd::prelude::*;
use vstd::string::StringExecFns;

verus! {

/// One successfully decoded sensor reading, in tenths of a unit:
/// relative humidity in tenths of a percent, temperature in tenths of a
/// degree Celsius (negative when the frame's sign bit is set).
#[derive(Clone, Copy, Debug, PartialEq, Eq, Structural)]
pub struct Reading {
    pub humidity_tenths: u16,
    pub temperature_tenths: i32,
}

/// The ways a single read attempt can fail.
#[derive(Clone, Copy, Debug, PartialEq, Eq, Structural)]
pub enum DhtError {
    /// The sensor never produced the wake-up handshake.
    NotPresent,
    /// The frame checksum did not match: (expected, calculated).
    ChecksumMismatch(u8, u8),
    /// The frame decoded to an impossible value.
    InvalidData,
    /// The line never went high while awaiting the given bit.
    TimeoutPost50us(usize),
    /// The line never returned low while timing the given bit.
    TimeoutBit(usize),
}

/// The observed outcome of awaiting one data bit on the line.
#[derive(Clone, Copy, Debug, PartialEq, Eq, Structural)]
pub enum BitEvent {
    /// The line did not go high within the per-bit timeout.
    HighTimeout,
    /// The line went high but did not return low within the timeout.
    LowTimeout,
    /// The line pulsed high for the given number of microseconds.
    Pulse(u64),
}

/// A decimal or hexadecimal digit as a lowercase character.
pub open spec fn spec_digit_char(d: int) -> char
    recommends
        0 <= d < 16,
{
    if d == 0 {
        '0'
    } else if d == 1 {
        '1'
    } else if d == 2 {
        '2'
    } else if d == 3 {
        '3'
    } else if d == 4 {
        '4'
    } else if d == 5 {
        '5'
    } else if d == 6 {
        '6'
    } else if d == 7 {
        '7'
    } else if d == 8 {
        '8'
    } else if d == 9 {
        '9'
    } else if d == 10 {
        'a'
    } else if d == 11 {
        'b'
    } else if d == 12 {
        'c'
    } else if d == 13 {
        'd'
    } else if d == 14 {
        'e'
    } else {
        'f'
    }
}

/// Decimal digits of `n` as characters, most significant first.
pub open spec fn spec_dec_chars(n: int) -> Seq<char>
    recommends
        n >= 0,
    decreases n,
{
    if n < 10 {
        seq![spec_digit_char(n)]
    } else {
        spec_dec_chars(n / 10).push(spec_digit_char(n % 10))
    }
}

/// Lowercase hexadecimal digits of `n` as characters, most significant
/// first, without leading zeros.
pub open spec fn spec_hex_chars(n: int) -> Seq<char>
    recommends
        n >= 0,
    decreases n,
{
    if n < 16 {
        seq![spec_digit_char(n)]
    } else {
        spec_hex_chars(n / 16).push(spec_digit_char(n % 16))
    }
}

/// The operator-facing description of each failure.
pub open spec fn spec_describe(e: DhtError) -> Seq<char> {
    match e {
        DhtError::NotPresent => "DHT device not found"@,
        DhtError::ChecksumMismatch(expected, calculated) => "Data read was corrupt (expected checksum "@
            + spec_hex_chars(expected as int) + ", calculated "@ + spec_hex_chars(
            calculated as int,
        ) + ")"@,
        DhtError::InvalidData => "Received data is out of range"@,
        DhtError::TimeoutPost50us(bit) => "Timed out waiting for a read: post 50us, "@
            + spec_dec_chars(bit as int),
        DhtError::TimeoutBit(bit) => "Timed out waiting for a read: bit, "@ + spec_dec_chars(
            bit as int,
        ),
    }
}

fn append_digit_char(s: &mut String, d: u8)
    requires
        d < 16,
    ensures
        final(s)@ == old(s)@ + seq![spec_digit_char(d as int)],
{
    match d {
        0 => s.append("0"),
        1 => s.append("1"),
        2 => s.append("2"),
        3 => s.append("3"),
        4 => s.append("4"),
        5 => s.append("5"),
        6 => s.append("6"),
        7 => s.append("7"),
        8 => s.append("8"),
        9 => s.append("9"),
        10 => s.append("a"),
        11 => s.append("b"),
        12 => s.append("c"),
        13 => s.append("d"),
        14 => s.append("e"),
        _ => s.append("f"),
    }
    proof {
        reveal_strlit("0");
        reveal_strlit("1");
        reveal_strlit("2");
        reveal_strlit("3");
        reveal_strlit("4");
        reveal_strlit("5");
        reveal_strlit("6");
        reveal_strlit("7");
        reveal_strlit("8");
        reveal_strlit("9");
        reveal_strlit("a");
        reveal_strlit("b");
        reveal_strlit("c");
        reveal_strlit("d");
        reveal_strlit("e");
        reveal_strlit("f");
        assert(final(s)@ =~= old(s)@ + seq![spec_digit_char(d as int)]);
    }
}

fn append_dec_chars(s: &mut String, n: u64)
    ensures
        final(s)@ == old(s)@ + spec_dec_chars(n as int),
    decreases n,
{
    if n >= 10 {
        append_dec_chars(s, n / 10);
    }
    append_digit_char(s, (n % 10) as u8);
    proof {
        assert(final(s)@ =~= old(s)@ + spec_dec_chars(n as int));
    }
}

fn append_hex_chars(s: &mut String, n: u64)
    ensures
        final(s)@ == old(s)@ + spec_hex_chars(n as int),
    decreases n,
{
    if n >= 16 {
        append_hex_chars(s, n / 16);
    }
    append_digit_char(s, (n % 16) as u8);
    proof {
        assert(final(s)@ =~= old(s)@ + spec_hex_chars(n as int));
    }
}

impl DhtError {
    /// The operator-facing description of this error, with checksum bytes in
    /// lowercase hexadecimal and bit indices in decimal.
    pub fn describe(&self) -> (r: String)
        ensures
            r@ == spec_describe(*self),
    {
        match self {
            DhtError::NotPresent => String::from_str("DHT device not found"),
            DhtError::ChecksumMismatch(expected, calculated) => {
                let mut s = String::from_str("Data read was corrupt (expected checksum ");
                append_hex_chars(&mut s, *expected as u64);
                s.append(", calculated ");
                append_hex_chars(&mut s, *calculated as u64);
                s.append(")");
                proof {
                    assert(s@ =~= spec_describe(*self));
                }
                s
            },
            DhtError::InvalidData => String::from_str("Received data is out of range"),
            DhtError::TimeoutPost50us(bit) => {
                let mut s = String::from_str("Timed out waiting for a read: post 50us, ");
                append_dec_chars(&mut s, *bit as u64);
                proof {
                    assert(s@ =~= spec_describe(*self));
                }
                s
            },
            DhtError::TimeoutBit(bit) => {
                let mut s = String::from_str("Timed out waiting for a read: bit, ");
                append_dec_chars(&mut s, *bit as u64);
                proof {
                    assert(s@ =~= spec_describe(*self));
                }
                s
            },
        }
    }
}

/// Low 8 bits of the sum of the first four frame bytes.
pub open spec fn spec_checksum(frame: Seq<u8>) -> u8
    recommends
        frame.len() >= 4,
{
    (((frame[0] + frame[1]) + (frame[2] + frame[3])) % 256) as u8
}

/// A pulse longer than 30 microseconds encodes a 1 bit.
pub open spec fn spec_bit(e: BitEvent) -> nat {
    if e is Pulse && e->Pulse_0 > 30 {
        1
    } else {
        0
    }
}

/// Value of the first `k` bits of byte `i`, packed most-significant-first.
pub open spec fn spec_byte_acc(events: Seq<BitEvent>, i: int, k: int) -> nat
    decreases k,
{
    if k <= 0 {
        0
    } else {
        spec_byte_acc(events, i, k - 1) * 2 + spec_bit(events[8 * i + (k - 1)])
    }
}

/// Byte `i` of the frame, packed from events `8i..8i+8` most-significant-first.
pub open spec fn spec_frame_byte(events: Seq<BitEvent>, i: int) -> nat {
    spec_byte_acc(events, i, 8)
}

pub open spec fn spec_pow2(k: nat) -> nat
    decreases k,
{
    if k == 0 {
        1
    } else {
        2 * spec_pow2((k - 1) as nat)
    }
}

pub proof fn lemma_byte_acc_bound(events: Seq<BitEvent>, i: int, k: int)
    requires
        k >= 0,
    ensures
        spec_byte_acc(events, i, k) < spec_pow2(k as nat),
    decreases k,
{
    if k > 0 {
        lemma_byte_acc_bound(events, i, k - 1);
    }
}

pub proof fn lemma_pow2_mono(a: nat, b: nat)
    requires
        a <= b,
    ensures
        spec_pow2(a) <= spec_pow2(b),
    decreases b,
{
    if a < b {
        lemma_pow2_mono(a, (b - 1) as nat);
    }
}

pub proof fn lemma_pow2_7()
    ensures
        spec_pow2(7) == 128,
{
    assert(spec_pow2(0) == 1);
    assert(spec_pow2(1) == 2);
    assert(spec_pow2(2) == 4);
    assert(spec_pow2(3) == 8);
    assert(spec_pow2(4) == 16);
    assert(spec_pow2(5) == 32);
    assert(spec_pow2(6) == 64);
    assert(spec_pow2(7) == 128);
}

/// An event list is what one attempt can observe: at most 40 events, every
/// event but the last a pulse, and short only because the last timed out.
pub open spec fn wf_events(s: Seq<BitEvent>) -> bool {
    &&& s.len() <= 40
    &&& forall|k: int| 0 <= k < s.len() - 1 ==> s[k] is Pulse
    &&& s.len() < 40 ==> s.len() > 0 && !(s[s.len() - 1] is Pulse)
}

/// Computes the frame checksum: the low byte of the sum of bytes 0 through 3.
pub fn calc_checksum(buf: &Vec<u8>) -> (r: u8)
    requires
        buf@.len() >= 4,
    ensures
        r == spec_checksum(buf@),
{
    let mut sum: u16 = 0;
    sum = sum + buf[0] as u16;
    sum = sum + buf[1] as u16;
    sum = sum + buf[2] as u16;
    sum = sum + buf[3] as u16;
    (sum % 256) as u8
}

/// Packs the timed bit events of one attempt into the 5-byte frame, or
/// reports the first bit whose awaited transition timed out.
pub fn frame_from_events(events: &Vec<BitEvent>) -> (r: Result<Vec<u8>, DhtError>)
    requires
        wf_events(events@),
    ensures
        (events@.len() == 40 && events@[39] is Pulse) ==> {
            &&& r is Ok
            &&& r->Ok_0@.len() == 5
            &&& forall|i: int| 0 <= i < 5 ==> r->Ok_0@[i] as nat == spec_frame_byte(events@, i)
        },
        (events@.len() > 0 && events@[events@.len() - 1] is HighTimeout) ==> r == Err::<
            Vec<u8>,
            DhtError,
        >(DhtError::TimeoutPost50us((events@.len() - 1) as usize)),
        (events@.len() > 0 && events@[events@.len() - 1] is LowTimeout) ==> r == Err::<
            Vec<u8>,
            DhtError,
        >(DhtError::TimeoutBit((events@.len() - 1) as usize)),
{
    let mut frame: Vec<u8> = Vec::new();
    let mut acc: u8 = 0;
    for j in 0..40usize
        invariant
            wf_events(events@),
            j <= events@.len(),
            forall|k: int| 0 <= k < j ==> events@[k] is Pulse,
            frame@.len() == j / 8,
            forall|i: int| 0 <= i < j / 8 ==> frame@[i] as nat == spec_frame_byte(events@, i),
            acc as nat == spec_byte_acc(events@, j as int / 8, j as int % 8),
    {
        proof {
            if j >= events@.len() {
                assert(events@.len() < 40);
                assert(!(events@[events@.len() - 1] is Pulse));
            }
            lemma_byte_acc_bound(events@, j as int / 8, j as int % 8);
            lemma_pow2_mono((j as int % 8) as nat, 7);
            lemma_pow2_7();
        }
        match events[j] {
            BitEvent::Pulse(d) => {
                let b: u8 = if d > 30 {
                    1
                } else {
                    0
                };
                acc = 2 * acc + b;
            },
            BitEvent::HighTimeout => {
                proof {
                    assert(j == events@.len() - 1);
                }
                return Err(DhtError::TimeoutPost50us(j));
            },
            BitEvent::LowTimeout => {
                proof {
                    assert(j == events@.len() - 1);
                }
                return Err(DhtError::TimeoutBit(j));
            },
        }
        if j % 8 == 7 {
            frame.push(acc);
            acc = 0;
        }
    }
    proof {
        assert(events@.len() == 40);
    }
    Ok(frame)
}

/// Raw humidity word of a frame, in tenths of a percent.
pub open spec fn spec_raw_humidity(frame: Seq<u8>) -> int
    recommends
        frame.len() == 5,
{
    frame[0] * 256 + frame[1]
}

/// Signed temperature of a frame in tenths of a degree: bit 7 of byte 2 is
/// the sign flag, the remaining 15 bits the magnitude.
pub open spec fn spec_temperature_tenths(frame: Seq<u8>) -> int
    recommends
        frame.len() == 5,
{
    let magnitude = (frame[2] & 0x7f) * 256 + frame[3];
    if frame[2] & 0x80 == 0x80 {
        -magnitude
    } else {
        magnitude
    }
}

/// What validating and parsing a complete 5-byte frame yields: a checksum
/// failure, an out-of-range humidity, or the decoded reading.
pub open spec fn spec_decode(frame: Seq<u8>) -> Result<Reading, DhtError>
    recommends
        frame.len() == 5,
{
    if frame[4] != spec_checksum(frame) {
        Err(DhtError::ChecksumMismatch(frame[4], spec_checksum(frame)))
    } else if spec_raw_humidity(frame) > 1000 {
        Err(DhtError::InvalidData)
    } else {
        Ok(
            Reading {
                humidity_tenths: spec_raw_humidity(frame) as u16,
                temperature_tenths: spec_temperature_tenths(frame) as i32,
            },
        )
    }
}

/// Validates a 5-byte frame and parses it into a reading: the checksum must
/// equal the low byte of the sum of the data bytes, and the humidity must
/// lie within 0 to 100 percent.
pub fn decode_frame(frame: &Vec<u8>) -> (r: Result<Reading, DhtError>)
    requires
        frame@.len() == 5,
    ensures
        r == spec_decode(frame@),
{
    let checksum = calc_checksum(frame);
    if frame[4] != checksum {
        return Err(DhtError::ChecksumMismatch(frame[4], checksum));
    }
    let raw_humidity: u16 = (frame[0] as u16) * 256 + (frame[1] as u16);
    if raw_humidity > 1000 {
        return Err(DhtError::InvalidData);
    }
    let magnitude: u16 = ((frame[2] & 0x7f) as u16) * 256 + (frame[3] as u16);
    let temperature_tenths: i32 = if frame[2] & 0x80 == 0x80 {
        -(magnitude as i32)
    } else {
        magnitude as i32
    };
    Ok(Reading { humidity_tenths: raw_humidity, temperature_tenths })
}

/// A frame is accepted only when its checksum byte equals the low 8 bits of
/// the sum of its data bytes.
pub proof fn lemma_accept_requires_checksum(frame: Seq<u8>)
    requires
        frame.len() == 5,
    ensures
        spec_decode(frame) is Ok ==> frame[4] == spec_checksum(frame),
{
}

/// A frame whose checksum matches but whose humidity exceeds 100 percent is
/// rejected as invalid data.
pub proof fn lemma_out_of_range_humidity_rejected(frame: Seq<u8>)
    requires
        frame.len() == 5,
        frame[4] == spec_checksum(frame),
        spec_raw_humidity(frame) > 1000,
    ensures
        spec_decode(frame) == Err::<Reading, DhtError>(DhtError::InvalidData),
{
}

/// Any corruption of the data bytes of a valid frame that changes the low
/// 8 bits of their sum is rejected as a checksum mismatch.
pub proof fn lemma_corruption_rejected(frame: Seq<u8>, corrupt: Seq<u8>)
    requires
        frame.len() == 5,
        corrupt.len() == 5,
        corrupt[4] == frame[4],
        frame[4] == spec_checksum(frame),
        spec_checksum(corrupt) != spec_checksum(frame),
    ensures
        spec_decode(corrupt) == Err::<Reading, DhtError>(
            DhtError::ChecksumMismatch(corrupt[4], spec_checksum(corrupt)),
        ),
{
}

} // verus!
