//! Driving the single-wire sensor over a GPIO line: the wake-up handshake,
//! busy-wait level timing, and one complete read attempt.
//!
//! The electrical level of the line and the monotonic clock live outside the
//! verified world; every other step of an attempt is verified against the
//! pure decoding layer.

use vstd::prelude::*;

use rppal::gpio::IoPin;
use std::time::{Duration, Instant};

use crate::codec::{BitEvent, DhtError, Reading};
use crate::codec::{decode_frame, frame_from_events, wf_events};

verus! {

#[verifier::external_type_specification]
#[verifier::external_body]
pub struct ExIoPin(IoPin);

#[verifier::external_type_specification]
#[verifier::external_body]
pub struct ExInstant(Instant);

/// Relies on rppal's IoPin::set_mode to switch the line to output mode.
#[verifier::external_body]
fn pin_set_output(pin: &mut IoPin) {
    pin.set_mode(rppal::gpio::Mode::Output);
}

/// Relies on rppal's IoPin::set_mode to switch the line to input mode.
#[verifier::external_body]
fn pin_set_input(pin: &mut IoPin) {
    pin.set_mode(rppal::gpio::Mode::Input);
}

/// Relies on rppal's IoPin::set_high to drive the line high.
#[verifier::external_body]
fn pin_set_high(pin: &mut IoPin) {
    pin.set_high();
}

/// Relies on rppal's IoPin::set_low to drive the line low.
#[verifier::external_body]
fn pin_set_low(pin: &mut IoPin) {
    pin.set_low();
}

/// Relies on rppal's IoPin::read: true exactly when the line reads high.
#[verifier::external_body]
fn pin_is_high(pin: &IoPin) -> bool {
    match pin.read() {
        rppal::gpio::Level::High => true,
        rppal::gpio::Level::Low => false,
    }
}

/// Relies on std's Instant::now for a monotonic clock reading.
#[verifier::external_body]
fn instant_now() -> Instant {
    Instant::now()
}

/// Relies on std's Instant::elapsed: the time passed since that instant.
#[verifier::external_body]
fn instant_elapsed(start: &Instant) -> Duration {
    start.elapsed()
}

/// Relies on std's Duration::as_micros: the duration in whole microseconds.
#[verifier::external_body]
fn duration_as_micros(d: &Duration) -> u128 {
    d.as_micros()
}

/// Busy-waits until at least `micros` microseconds have passed, and returns
/// the instant the wait started at. A poll-count guard bounds the loop so
/// that even a stuck clock cannot hang an attempt.
pub fn sleep(micros: u64) -> (r: Instant) {
    let start = instant_now();
    let mut polls: u64 = 0;
    while polls < 0xffff_ffff_ffff_ffff
        decreases 0xffff_ffff_ffff_ffff_u64 - polls,
    {
        let waited = duration_as_micros(&instant_elapsed(&start));
        if waited >= micros as u128 {
            return start;
        }
        polls = polls + 1;
    }
    start
}

/// One single-wire sensor attached to a GPIO line.
pub struct Dht22 {
    pin: IoPin,
}

impl Dht22 {
    pub fn new(pin: IoPin) -> Self {
        Dht22 { pin }
    }

    /// Polls the line until it reads the wanted level, returning the elapsed
    /// microseconds, or the given error once `timeout_micros` have passed.
    fn wait_for_level(&mut self, want_high: bool, timeout_micros: u64, on_timeout: DhtError) -> (r:
        Result<u64, DhtError>)
        ensures
            r is Err ==> r->Err_0 == on_timeout,
    {
        let start = instant_now();
        let mut polls: u64 = 0;
        while polls < 0xffff_ffff_ffff_ffff
            decreases 0xffff_ffff_ffff_ffff_u64 - polls,
        {
            if pin_is_high(&self.pin) == want_high {
                let waited = duration_as_micros(&instant_elapsed(&start));
                if waited > 0xffff_ffff_ffff_ffff {
                    return Ok(0xffff_ffff_ffff_ffff);
                }
                return Ok(waited as u64);
            }
            let waited = duration_as_micros(&instant_elapsed(&start));
            if waited > timeout_micros as u128 {
                return Err(on_timeout);
            }
            sleep(1);
            polls = polls + 1;
        }
        Err(on_timeout)
    }

    /// Wakes the sensor: charge the line high, pulse it low, release it, and
    /// await the sensor's low-high-low handshake.
    fn wake_up(&mut self) -> (r: Result<(), DhtError>)
        ensures
            r is Err ==> r->Err_0 == DhtError::NotPresent,
    {
        pin_set_output(&mut self.pin);
        pin_set_high(&mut self.pin);
        sleep(100000);
        pin_set_low(&mut self.pin);
        sleep(5000);
        pin_set_high(&mut self.pin);
        pin_set_input(&mut self.pin);
        match self.wait_for_level(false, 45, DhtError::NotPresent) {
            Err(e) => {
                return Err(e);
            },
            Ok(_) => {},
        }
        match self.wait_for_level(true, 85, DhtError::NotPresent) {
            Err(e) => {
                return Err(e);
            },
            Ok(_) => {},
        }
        match self.wait_for_level(false, 85, DhtError::NotPresent) {
            Err(e) => {
                return Err(e);
            },
            Ok(_) => {},
        }
        Ok(())
    }

    /// Times up to 40 data bits on the line, stopping at the first bit whose
    /// awaited transition times out.
    fn read_events(&mut self) -> (events: Vec<BitEvent>)
        ensures
            wf_events(events@),
    {
        let mut events: Vec<BitEvent> = Vec::new();
        let mut bit: usize = 0;
        while bit < 40
            invariant_except_break
                bit <= 40,
                events@.len() == bit,
                forall|k: int| 0 <= k < events@.len() ==> events@[k] is Pulse,
            ensures
                wf_events(events@),
            decreases 40 - bit,
        {
            match self.wait_for_level(true, 70, DhtError::TimeoutPost50us(bit)) {
                Err(_) => {
                    events.push(BitEvent::HighTimeout);
                    break ;
                },
                Ok(_) => {},
            }
            match self.wait_for_level(false, 90, DhtError::TimeoutBit(bit)) {
                Err(_) => {
                    events.push(BitEvent::LowTimeout);
                    break ;
                },
                Ok(elapsed) => {
                    events.push(BitEvent::Pulse(elapsed));
                },
            }
            bit = bit + 1;
        }
        events
    }

    /// One complete read attempt: wake the sensor, time the 40 data bits,
    /// pack and validate the frame. Whatever the line did, an accepted
    /// reading has its checksum matched and its humidity within range, and
    /// every timeout is tagged with a bit index below 40.
    pub fn read(&mut self) -> (r: Result<Reading, DhtError>)
        ensures
            r is Ok ==> r->Ok_0.humidity_tenths <= 1000,
            r matches Err(DhtError::TimeoutPost50us(b)) ==> b < 40,
            r matches Err(DhtError::TimeoutBit(b)) ==> b < 40,
            r matches Err(DhtError::ChecksumMismatch(expected, calculated)) ==> expected
                != calculated,
    {
        match self.wake_up() {
            Err(e) => {
                return Err(e);
            },
            Ok(_) => {},
        }
        let events = self.read_events();
        let frame = match frame_from_events(&events) {
            Ok(f) => f,
            Err(e) => {
                return Err(e);
            },
        };
        decode_frame(&frame)
    }
}

} // verus!
