//! One acquisition pass: each configured sensor is read with a bounded
//! number of attempts, and a successful reading becomes samples stamped with
//! the pass's shared timestamp. A sensor that never succeeds contributes
//! nothing and never blocks the others.

use vstd::prelude::*;

use crate::codec::{DhtError, Reading};
use crate::dht::Dht22;
use crate::sample::{ChannelId, Sample, Timestamp, sample_valid, ts_valid, value_valid};

verus! {

/// The first successful outcome among the attempts, if any.
pub open spec fn spec_first_reading(attempts: Seq<Option<Reading>>) -> Option<Reading>
    decreases attempts.len(),
{
    if attempts.len() == 0 {
        None
    } else if attempts[0] is Some {
        attempts[0]
    } else {
        spec_first_reading(attempts.skip(1))
    }
}

/// The first successful outcome among the attempts, if any.
pub open spec fn spec_first_temp(attempts: Seq<Option<i64>>) -> Option<i64>
    decreases attempts.len(),
{
    if attempts.len() == 0 {
        None
    } else if attempts[0] is Some {
        attempts[0]
    } else {
        spec_first_temp(attempts.skip(1))
    }
}

pub open spec fn spec_humidity_milli(rd: Reading) -> i64 {
    (rd.humidity_tenths * 100) as i64
}

pub open spec fn spec_temperature_milli(rd: Reading) -> i64 {
    (rd.temperature_tenths * 100) as i64
}

/// Turns the outcomes of one sensor's bounded retries into its samples: a
/// sensor that succeeds on some attempt yields exactly one reading's worth
/// of samples (humidity, then temperature); one that never succeeds yields
/// none.
pub fn samples_from_attempts(
    attempts: &Vec<Option<Reading>>,
    humidity_channel: ChannelId,
    temperature_channel: ChannelId,
    stamp: Timestamp,
) -> (r: Vec<Sample>)
    requires
        attempts@.len() <= 3,
        ts_valid(stamp),
    ensures
        spec_first_reading(attempts@) is Some ==> r@ =~= seq![
            Sample {
                channel: humidity_channel,
                stamp,
                milli: spec_humidity_milli(spec_first_reading(attempts@)->Some_0),
            },
            Sample {
                channel: temperature_channel,
                stamp,
                milli: spec_temperature_milli(spec_first_reading(attempts@)->Some_0),
            },
        ],
        spec_first_reading(attempts@) is None ==> r@ =~= Seq::<Sample>::empty(),
        forall|i: int| 0 <= i < r@.len() ==> sample_valid(#[trigger] r@[i]),
{
    let n = attempts.len();
    let mut i: usize = 0;
    proof {
        assert(attempts@.skip(0) =~= attempts@);
    }
    while i < n
        invariant
            i <= n == attempts@.len() <= 3,
            ts_valid(stamp),
            spec_first_reading(attempts@) == spec_first_reading(attempts@.skip(i as int)),
            forall|k: int| 0 <= k < i ==> attempts@[k] is None,
        decreases n - i,
    {
        proof {
            assert(attempts@.skip(i as int)[0] == attempts@[i as int]);
            assert(attempts@.skip(i as int).skip(1) =~= attempts@.skip(i as int + 1));
        }
        match attempts[i] {
            Some(rd) => {
                let mut out: Vec<Sample> = Vec::new();
                out.push(
                    Sample {
                        channel: humidity_channel,
                        stamp,
                        milli: (rd.humidity_tenths as i64) * 100,
                    },
                );
                out.push(
                    Sample {
                        channel: temperature_channel,
                        stamp,
                        milli: (rd.temperature_tenths as i64) * 100,
                    },
                );
                return out;
            },
            None => {},
        }
        i = i + 1;
    }
    proof {
        assert(attempts@.skip(n as int) =~= Seq::<Option<Reading>>::empty());
    }
    Vec::new()
}

/// Turns the outcomes of one one-wire sensor's bounded retries into its
/// samples: the first successful millidegree reading becomes one sample.
pub fn temp_samples_from_attempts(
    attempts: &Vec<Option<i64>>,
    temperature_channel: ChannelId,
    stamp: Timestamp,
) -> (r: Vec<Sample>)
    requires
        attempts@.len() <= 3,
        ts_valid(stamp),
        forall|k: int|
            0 <= k < attempts@.len() ==> ((#[trigger] attempts@[k]) matches Some(v) ==> value_valid(
                v as int,
            )),
    ensures
        spec_first_temp(attempts@) is Some ==> r@ =~= seq![
            Sample {
                channel: temperature_channel,
                stamp,
                milli: spec_first_temp(attempts@)->Some_0,
            },
        ],
        spec_first_temp(attempts@) is None ==> r@ =~= Seq::<Sample>::empty(),
        forall|i: int| 0 <= i < r@.len() ==> sample_valid(#[trigger] r@[i]),
{
    let n = attempts.len();
    let mut i: usize = 0;
    proof {
        assert(attempts@.skip(0) =~= attempts@);
    }
    while i < n
        invariant
            i <= n == attempts@.len() <= 3,
            ts_valid(stamp),
            forall|k: int|
                0 <= k < attempts@.len() ==> ((#[trigger] attempts@[k]) matches Some(v)
                    ==> value_valid(v as int)),
            spec_first_temp(attempts@) == spec_first_temp(attempts@.skip(i as int)),
            forall|k: int| 0 <= k < i ==> attempts@[k] is None,
        decreases n - i,
    {
        proof {
            assert(attempts@.skip(i as int)[0] == attempts@[i as int]);
            assert(attempts@.skip(i as int).skip(1) =~= attempts@.skip(i as int + 1));
        }
        match attempts[i] {
            Some(raw) => {
                let mut out: Vec<Sample> = Vec::new();
                out.push(Sample { channel: temperature_channel, stamp, milli: raw });
                return out;
            },
            None => {},
        }
        i = i + 1;
    }
    proof {
        assert(attempts@.skip(n as int) =~= Seq::<Option<i64>>::empty());
    }
    Vec::new()
}

/// Reads one timing sensor with up to three attempts. On success the
/// samples are two (humidity, then temperature, sharing the pass timestamp)
/// and no error is surfaced; when every attempt failed there are no samples
/// and the last attempt's error comes back for the operator's log.
pub fn acquire_dht(
    dht: &mut Dht22,
    humidity_channel: ChannelId,
    temperature_channel: ChannelId,
    stamp: Timestamp,
) -> (r: (Vec<Sample>, Option<DhtError>))
    requires
        ts_valid(stamp),
    ensures
        r.0@.len() == 0 || r.0@.len() == 2,
        forall|i: int| 0 <= i < r.0@.len() ==> sample_valid(#[trigger] r.0@[i]),
        r.0@.len() == 2 ==> {
            &&& r.0@[0].channel == humidity_channel
            &&& r.0@[1].channel == temperature_channel
            &&& r.0@[0].stamp == stamp
            &&& r.0@[1].stamp == stamp
            &&& 0 <= r.0@[0].milli <= 100000
        },
        r.0@.len() == 0 <==> r.1 is Some,
{
    let mut attempts: Vec<Option<Reading>> = Vec::new();
    let mut last_error: Option<DhtError> = None;
    let mut tries: usize = 0;
    while tries < 3
        invariant_except_break
            tries <= 3,
            attempts@.len() == tries,
            forall|k: int| 0 <= k < attempts@.len() ==> attempts@[k] is None,
            tries > 0 ==> last_error is Some,
        ensures
            attempts@.len() <= 3,
            forall|k: int|
                0 <= k < attempts@.len() ==> ((#[trigger] attempts@[k]) matches Some(rd)
                    ==> rd.humidity_tenths <= 1000),
            spec_first_reading(attempts@) is None ==> last_error is Some,
        decreases 3 - tries,
    {
        match dht.read() {
            Ok(rd) => {
                attempts.push(Some(rd));
                proof {
                    assert(attempts@[attempts@.len() - 1] is Some);
                    lemma_first_reading_is_member(attempts@);
                    lemma_first_reading_covers(attempts@);
                }
                break ;
            },
            Err(e) => {
                attempts.push(None);
                last_error = Some(e);
            },
        }
        tries = tries + 1;
    }
    proof {
        lemma_first_reading_is_member(attempts@);
    }
    let samples = samples_from_attempts(&attempts, humidity_channel, temperature_channel, stamp);
    if samples.len() == 0 {
        (samples, last_error)
    } else {
        (samples, None)
    }
}

/// When every attempt failed, there is no first successful reading; when
/// some attempt succeeded, there is one.
pub proof fn lemma_first_reading_covers(attempts: Seq<Option<Reading>>)
    ensures
        spec_first_reading(attempts) is None <==> forall|j: int|
            0 <= j < attempts.len() ==> attempts[j] is None,
    decreases attempts.len(),
{
    if attempts.len() > 0 {
        lemma_first_reading_covers(attempts.skip(1));
        if !(attempts[0] is Some) {
            assert forall|j: int|
                0 <= j < attempts.len() && spec_first_reading(attempts) is None implies attempts[j]
                is None by {
                if j > 0 {
                    assert(attempts.skip(1)[j - 1] is None);
                }
            }
            if forall|j: int| 0 <= j < attempts.len() ==> attempts[j] is None {
                assert(forall|j: int|
                    0 <= j < attempts.skip(1).len() ==> attempts.skip(1)[j] == attempts[j + 1]);
            }
        }
    }
}

/// A first successful reading is one of the attempts.
pub proof fn lemma_first_reading_is_member(attempts: Seq<Option<Reading>>)
    ensures
        spec_first_reading(attempts) is Some ==> exists|j: int|
            0 <= j < attempts.len() && attempts[j] == spec_first_reading(attempts),
    decreases attempts.len(),
{
    if attempts.len() > 0 && !(attempts[0] is Some) {
        lemma_first_reading_is_member(attempts.skip(1));
        if spec_first_reading(attempts) is Some {
            let j = choose|j: int|
                0 <= j < attempts.skip(1).len() && attempts.skip(1)[j] == spec_first_reading(
                    attempts.skip(1),
                );
            assert(attempts[j + 1] == spec_first_reading(attempts));
        }
    }
}

} // verus!
