//! The one-wire temperature collaborator: the kernel driver exposes a small
//! two-line text file whose second line carries `key=integerMillidegrees`;
//! this module owns the parse of that text. Reading the file itself is left
//! to the surrounding platform layer.

use vstd::prelude::*;

use crate::sample::{all_digits, spec_dec_val, spec_find, value_valid};
use crate::sample::{find_byte, lemma_dec_val_prefix_mono};

verus! {

/// A one-wire temperature sensor, identified by its device id.
pub struct Ds18b20<'a> {
    pub id: &'a str,
}

impl<'a> Ds18b20<'a> {
    pub fn new(id: &'a str) -> (r: Self)
        ensures
            r.id@ == id@,
    {
        Ds18b20 { id }
    }
}

/// What the driver text means: the second line is split at its first `=`,
/// and the remainder must be a signed decimal integer (an optional plus or
/// minus sign, then digits) within the representable sample range: the
/// temperature in millidegrees Celsius.
pub open spec fn spec_parse_w1(data: Seq<u8>) -> Option<i64> {
    let nl1 = spec_find(data, 10);
    if nl1 + 1 >= data.len() {
        None
    } else {
        let rest = data.skip(nl1 + 1);
        let line = rest.take(spec_find(rest, 10));
        let eq = spec_find(line, 61);
        if eq == line.len() {
            None
        } else {
            let vs = line.skip(eq + 1);
            let digits = if vs.len() > 0 && (vs[0] == 43 || vs[0] == 45) {
                vs.skip(1)
            } else {
                vs
            };
            if digits.len() >= 1 && all_digits(digits) && spec_dec_val(digits)
                < 1000000000000000 {
                if vs.len() > 0 && vs[0] == 45 {
                    Some((0 - spec_dec_val(digits)) as i64)
                } else {
                    Some(spec_dec_val(digits) as i64)
                }
            } else {
                None
            }
        }
    }
}

/// Extracts the millidegree reading from the driver text: the second line's
/// `=`-suffix parsed as a signed decimal integer. A successful parse is
/// always within the representable sample range.
#[verifier::loop_isolation(false)]
#[verifier::rlimit(100)]
pub fn parse_w1(data: &Vec<u8>) -> (r: Option<i64>)
    ensures
        r == spec_parse_w1(data@),
        r matches Some(v) ==> value_valid(v as int),
{
    let n = data.len();
    proof {
        assert(data@.subrange(0, n as int) =~= data@);
    }
    let nl1 = find_byte(data, 0, n, 10);
    if nl1 >= n {
        return None;
    }
    if nl1 + 1 >= n {
        return None;
    }
    let ghost rest = data@.skip(nl1 as int + 1);
    proof {
        assert(rest =~= data@.subrange(nl1 as int + 1, n as int));
    }
    let nl2 = find_byte(data, nl1 + 1, n, 10);
    let ghost line = rest.take(spec_find(rest, 10));
    proof {
        assert(line =~= data@.subrange(nl1 as int + 1, nl2 as int));
    }
    let eq = find_byte(data, nl1 + 1, nl2, 61);
    if eq == nl2 {
        return None;
    }
    let ghost vs = line.skip(spec_find(line, 61) + 1);
    proof {
        assert(vs =~= data@.subrange(eq as int + 1, nl2 as int));
    }
    let mut st: usize = eq + 1;
    let mut negative: bool = false;
    if st < nl2 && (data[st] == 43 || data[st] == 45) {
        negative = data[st] == 45;
        st = st + 1;
        proof {
            assert(vs.skip(1) =~= data@.subrange(st as int, nl2 as int));
        }
    }
    let ghost digits = if vs.len() > 0 && (vs[0] == 43 || vs[0] == 45) {
        vs.skip(1)
    } else {
        vs
    };
    proof {
        assert(digits =~= data@.subrange(st as int, nl2 as int));
    }
    if st >= nl2 {
        return None;
    }
    let mut acc: u64 = 0;
    let mut i: usize = st;
    while i < nl2
        invariant
            st <= i <= nl2 <= n == data@.len(),
            digits == data@.subrange(st as int, nl2 as int),
            all_digits(data@.subrange(st as int, i as int)),
            acc as int == spec_dec_val(data@.subrange(st as int, i as int)),
            acc < 1000000000000000,
        decreases nl2 - i,
    {
        let c = data[i];
        if c < 48 || c > 57 {
            proof {
                assert(digits[i - st] == c);
                assert(!all_digits(digits));
            }
            return None;
        }
        proof {
            assert(data@.subrange(st as int, i as int + 1).drop_last() =~= data@.subrange(
                st as int,
                i as int,
            ));
            assert(data@.subrange(st as int, i as int + 1).last() == data@[i as int]);
        }
        let acc2: u64 = acc * 10 + ((c - 48) as u64);
        if acc2 >= 1000000000000000 {
            proof {
                if all_digits(digits) {
                    assert(digits.take(i as int + 1 - st as int) =~= data@.subrange(
                        st as int,
                        i as int + 1,
                    ));
                    lemma_dec_val_prefix_mono(digits, i as int + 1 - st as int);
                }
            }
            return None;
        }
        acc = acc2;
        i = i + 1;
    }
    proof {
        assert(digits =~= data@.subrange(st as int, nl2 as int));
    }
    if negative {
        Some(-(acc as i64))
    } else {
        Some(acc as i64)
    }
}

} // verus!
