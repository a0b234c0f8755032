//! The data model of an acquired sample and the textual field encodings used
//! by the cache file: a 128-bit channel identifier rendered as hyphenated
//! hexadecimal, a UTC timestamp rendered in fixed-width ISO-8601, and a
//! decimal value carried in thousandths of a unit.

use vstd::prelude::*;

verus! {

/// Logical channel a sample is routed to: an opaque 128-bit identifier,
/// split into its high and low 64 bits.
#[derive(Clone, Copy, Debug, PartialEq, Eq, Structural)]
pub struct ChannelId {
    pub hi: u64,
    pub lo: u64,
}

/// A UTC instant, broken into calendar and clock fields.
#[derive(Clone, Copy, Debug, PartialEq, Eq, Structural)]
pub struct Timestamp {
    pub year: u16,
    pub month: u8,
    pub day: u8,
    pub hour: u8,
    pub minute: u8,
    pub second: u8,
    pub nanosecond: u32,
}

/// One acquired measurement: the channel it belongs to, the shared
/// acquisition instant, and the value in thousandths of a unit.
#[derive(Clone, Copy, Debug, PartialEq, Eq, Structural)]
pub struct Sample {
    pub channel: ChannelId,
    pub stamp: Timestamp,
    pub milli: i64,
}

pub open spec fn ts_valid(t: Timestamp) -> bool {
    &&& t.year <= 9999
    &&& 1 <= t.month <= 12
    &&& 1 <= t.day <= 31
    &&& t.hour < 24
    &&& t.minute < 60
    &&& t.second < 60
    &&& t.nanosecond < 1000000000
}

pub open spec fn value_valid(m: int) -> bool {
    -1000000000000000 < m < 1000000000000000
}

pub open spec fn sample_valid(s: Sample) -> bool {
    ts_valid(s.stamp) && value_valid(s.milli as int)
}

// ---------------------------------------------------------------------------
// Digits and numbers
// ---------------------------------------------------------------------------

pub open spec fn is_digit(c: u8) -> bool {
    48 <= c <= 57
}

pub open spec fn is_hex_char(c: u8) -> bool {
    is_digit(c) || 97 <= c <= 102
}

pub open spec fn all_digits(s: Seq<u8>) -> bool {
    forall|i: int| 0 <= i < s.len() ==> is_digit(s[i])
}

pub open spec fn all_hex(s: Seq<u8>) -> bool {
    forall|i: int| 0 <= i < s.len() ==> is_hex_char(s[i])
}

pub open spec fn spec_digit(n: int) -> u8 {
    (48 + n % 10) as u8
}

pub open spec fn spec_hex_char(n: int) -> u8 {
    if n % 16 < 10 {
        (48 + n % 16) as u8
    } else {
        (87 + n % 16) as u8
    }
}

pub open spec fn spec_pow10(k: nat) -> int
    decreases k,
{
    if k == 0 {
        1
    } else {
        10 * spec_pow10((k - 1) as nat)
    }
}

pub open spec fn spec_pow16(k: nat) -> int
    decreases k,
{
    if k == 0 {
        1
    } else {
        16 * spec_pow16((k - 1) as nat)
    }
}

pub proof fn lemma_pow10_vals()
    ensures
        spec_pow10(0) == 1,
        spec_pow10(1) == 10,
        spec_pow10(2) == 100,
        spec_pow10(3) == 1000,
        spec_pow10(4) == 10000,
        spec_pow10(5) == 100000,
        spec_pow10(6) == 1000000,
        spec_pow10(7) == 10000000,
        spec_pow10(8) == 100000000,
        spec_pow10(9) == 1000000000,
        spec_pow10(12) == 1000000000000,
{
    assert(spec_pow10(0) == 1);
    assert(spec_pow10(1) == 10);
    assert(spec_pow10(2) == 100);
    assert(spec_pow10(3) == 1000);
    assert(spec_pow10(4) == 10000);
    assert(spec_pow10(5) == 100000);
    assert(spec_pow10(6) == 1000000);
    assert(spec_pow10(7) == 10000000);
    assert(spec_pow10(8) == 100000000);
    assert(spec_pow10(9) == 1000000000);
    assert(spec_pow10(10) == 10000000000);
    assert(spec_pow10(11) == 100000000000);
    assert(spec_pow10(12) == 1000000000000);
}

pub proof fn lemma_pow16_vals()
    ensures
        spec_pow16(4) == 0x10000,
        spec_pow16(8) == 0x100000000,
        spec_pow16(12) == 0x1000000000000,
{
    assert(spec_pow16(0) == 1);
    assert(spec_pow16(1) == 16);
    assert(spec_pow16(2) == 0x100);
    assert(spec_pow16(3) == 0x1000);
    assert(spec_pow16(4) == 0x10000);
    assert(spec_pow16(5) == 0x100000);
    assert(spec_pow16(6) == 0x1000000);
    assert(spec_pow16(7) == 0x10000000);
    assert(spec_pow16(8) == 0x100000000);
    assert(spec_pow16(9) == 0x1000000000);
    assert(spec_pow16(10) == 0x10000000000);
    assert(spec_pow16(11) == 0x100000000000);
    assert(spec_pow16(12) == 0x1000000000000);
}

pub proof fn lemma_pow10_pos(k: nat)
    ensures
        spec_pow10(k) >= 1,
    decreases k,
{
    if k > 0 {
        lemma_pow10_pos((k - 1) as nat);
    }
}

pub proof fn lemma_pow16_pos(k: nat)
    ensures
        spec_pow16(k) >= 1,
    decreases k,
{
    if k > 0 {
        lemma_pow16_pos((k - 1) as nat);
    }
}

pub proof fn lemma_pow10_add(a: nat, b: nat)
    ensures
        spec_pow10(a) * spec_pow10(b) == spec_pow10((a + b) as nat),
    decreases a,
{
    if a > 0 {
        lemma_pow10_add((a - 1) as nat, b);
        assert(spec_pow10(a) * spec_pow10(b) == 10 * (spec_pow10((a - 1) as nat) * spec_pow10(b)))
            by (nonlinear_arith)
            requires
                spec_pow10(a) == 10 * spec_pow10((a - 1) as nat),
        ;
    }
}

pub proof fn lemma_pow10_mono(a: nat, b: nat)
    requires
        a <= b,
    ensures
        spec_pow10(a) <= spec_pow10(b),
    decreases b,
{
    if a < b {
        lemma_pow10_mono(a, (b - 1) as nat);
        lemma_pow10_pos((b - 1) as nat);
    }
}

pub proof fn lemma_pow16_mono(a: nat, b: nat)
    requires
        a <= b,
    ensures
        spec_pow16(a) <= spec_pow16(b),
    decreases b,
{
    if a < b {
        lemma_pow16_mono(a, (b - 1) as nat);
        lemma_pow16_pos((b - 1) as nat);
    }
}

/// Decimal digits of `n`, most significant first, no leading zeros.
pub open spec fn spec_digits(n: int) -> Seq<u8>
    recommends
        n >= 0,
    decreases n,
{
    if n < 10 {
        seq![spec_digit(n)]
    } else {
        spec_digits(n / 10).push(spec_digit(n % 10))
    }
}

/// `w` decimal digits of `n`, most significant first, zero padded.
pub open spec fn spec_padded(n: int, w: nat) -> Seq<u8>
    decreases w,
{
    if w == 0 {
        Seq::<u8>::empty()
    } else {
        spec_padded(n / 10, (w - 1) as nat).push(spec_digit(n % 10))
    }
}

/// `w` lowercase hexadecimal digits of `n`, most significant first.
pub open spec fn spec_hexw(n: int, w: nat) -> Seq<u8>
    decreases w,
{
    if w == 0 {
        Seq::<u8>::empty()
    } else {
        spec_hexw(n / 16, (w - 1) as nat).push(spec_hex_char(n % 16))
    }
}

/// Numeric value of a decimal digit string, most significant first.
pub open spec fn spec_dec_val(s: Seq<u8>) -> int
    decreases s.len(),
{
    if s.len() == 0 {
        0
    } else {
        spec_dec_val(s.drop_last()) * 10 + (s.last() - 48)
    }
}

pub open spec fn spec_hex_val_char(c: u8) -> int {
    if c <= 57 {
        c - 48
    } else {
        c - 87
    }
}

/// Numeric value of a hexadecimal digit string, most significant first.
pub open spec fn spec_hex_val(s: Seq<u8>) -> int
    decreases s.len(),
{
    if s.len() == 0 {
        0
    } else {
        spec_hex_val(s.drop_last()) * 16 + spec_hex_val_char(s.last())
    }
}

pub proof fn lemma_dec_val_bound(s: Seq<u8>)
    requires
        all_digits(s),
    ensures
        0 <= spec_dec_val(s) < spec_pow10(s.len()),
    decreases s.len(),
{
    if s.len() > 0 {
        assert(all_digits(s.drop_last()));
        lemma_dec_val_bound(s.drop_last());
    }
}

pub proof fn lemma_hex_val_bound(s: Seq<u8>)
    requires
        all_hex(s),
    ensures
        0 <= spec_hex_val(s) < spec_pow16(s.len()),
    decreases s.len(),
{
    if s.len() > 0 {
        assert(all_hex(s.drop_last()));
        lemma_hex_val_bound(s.drop_last());
    }
}

/// The padded rendering has the stated width, holds only digits, and its
/// value is `n` whenever `n` fits in the width.
pub proof fn lemma_padded_props(n: int, w: nat)
    requires
        n >= 0,
    ensures
        spec_padded(n, w).len() == w,
        all_digits(spec_padded(n, w)),
        n < spec_pow10(w) ==> spec_dec_val(spec_padded(n, w)) == n,
    decreases w,
{
    if w > 0 {
        lemma_padded_props(n / 10, (w - 1) as nat);
        let s = spec_padded(n, w);
        assert(s.drop_last() =~= spec_padded(n / 10, (w - 1) as nat));
    }
}

pub proof fn lemma_hexw_props(n: int, w: nat)
    requires
        n >= 0,
    ensures
        spec_hexw(n, w).len() == w,
        all_hex(spec_hexw(n, w)),
        n < spec_pow16(w) ==> spec_hex_val(spec_hexw(n, w)) == n,
    decreases w,
{
    if w > 0 {
        lemma_hexw_props(n / 16, (w - 1) as nat);
        let s = spec_hexw(n, w);
        assert(s.drop_last() =~= spec_hexw(n / 16, (w - 1) as nat));
        assert(spec_hex_val_char(spec_hex_char(n % 16)) == n % 16);
    }
}

/// The plain decimal rendering holds only digits, is never empty, its value
/// is `n`, and its length is at most any width `n` fits in.
pub proof fn lemma_digits_props(n: int)
    requires
        n >= 0,
    ensures
        spec_digits(n).len() >= 1,
        all_digits(spec_digits(n)),
        spec_dec_val(spec_digits(n)) == n,
        forall|k: nat| k >= 1 && n < spec_pow10(k) ==> #[trigger] spec_pow10(k) > 0 && spec_digits(
            n,
        ).len() <= k,
    decreases n,
{
    if n >= 10 {
        lemma_digits_props(n / 10);
        let s = spec_digits(n);
        assert(s.drop_last() =~= spec_digits(n / 10));
        assert(s.last() == spec_digit(n % 10));
        assert(spec_dec_val(s) == spec_dec_val(spec_digits(n / 10)) * 10 + (spec_digit(n % 10)
            - 48));
        assert(spec_digit(n % 10) - 48 == n % 10);
        assert(spec_dec_val(s) == (n / 10) * 10 + n % 10);
        assert forall|k: nat| k >= 1 && n < spec_pow10(k) implies #[trigger] spec_pow10(k) > 0
            && spec_digits(n).len() <= k by {
            assert(spec_pow10(k) == 10 * spec_pow10((k - 1) as nat));
            assert(n / 10 < spec_pow10((k - 1) as nat));
            if (k - 1) as nat >= 1 {
                assert(spec_digits(n / 10).len() <= (k - 1) as nat);
            } else {
                assert(spec_pow10(0) == 1);
                assert(false);
            }
        }
    } else {
        lemma_dec_val_1(spec_digit(n));
        assert(spec_dec_val(spec_digits(n)) == spec_digit(n) - 48);
        assert forall|k: nat| k >= 1 && n < spec_pow10(k) implies #[trigger] spec_pow10(k) > 0
            && spec_digits(n).len() <= k by {
            lemma_pow10_mono(0, k);
        }
    }
}

// ---------------------------------------------------------------------------
// Finding bytes
// ---------------------------------------------------------------------------

/// Index of the first occurrence of `c` in `s`, or `s.len()` if absent.
pub open spec fn spec_find(s: Seq<u8>, c: u8) -> int
    decreases s.len(),
{
    if s.len() == 0 {
        0
    } else if s[0] == c {
        0
    } else {
        1 + spec_find(s.skip(1), c)
    }
}

pub proof fn lemma_find_props(s: Seq<u8>, c: u8)
    ensures
        0 <= spec_find(s, c) <= s.len(),
        spec_find(s, c) < s.len() ==> s[spec_find(s, c)] == c,
        forall|i: int| 0 <= i < spec_find(s, c) ==> s[i] != c,
    decreases s.len(),
{
    if s.len() > 0 && s[0] != c {
        lemma_find_props(s.skip(1), c);
        assert forall|i: int| 0 <= i < spec_find(s, c) implies s[i] != c by {
            if i > 0 {
                assert(s.skip(1)[i - 1] != c);
            }
        }
    }
}

/// When no byte of `p` is `c`, finding `c` in `p + q` lands past `p`.
pub proof fn lemma_find_concat(p: Seq<u8>, q: Seq<u8>, c: u8)
    requires
        forall|i: int| 0 <= i < p.len() ==> p[i] != c,
    ensures
        spec_find(p + q, c) == p.len() + spec_find(q, c),
    decreases p.len(),
{
    if p.len() == 0 {
        assert(p + q =~= q);
    } else {
        assert((p + q).skip(1) =~= p.skip(1) + q);
        lemma_find_concat(p.skip(1), q, c);
    }
}

// ---------------------------------------------------------------------------
// The value field: a signed decimal in thousandths, up to three fraction
// digits, trailing zeros trimmed.
// ---------------------------------------------------------------------------

/// Fraction part of a value in thousandths: empty when zero, otherwise a
/// point and one to three digits with trailing zeros trimmed.
pub open spec fn spec_frac_chars(f: int) -> Seq<u8>
    recommends
        0 <= f < 1000,
{
    if f == 0 {
        Seq::<u8>::empty()
    } else if f % 100 == 0 {
        seq![46u8, spec_digit(f / 100)]
    } else if f % 10 == 0 {
        seq![46u8, spec_digit(f / 100), spec_digit((f / 10) % 10)]
    } else {
        seq![46u8, spec_digit(f / 100), spec_digit((f / 10) % 10), spec_digit(f % 10)]
    }
}

/// Decimal rendering of a value in thousandths of a unit.
pub open spec fn spec_value_chars(m: int) -> Seq<u8> {
    let a = if m < 0 {
        -m
    } else {
        m
    };
    let sign: Seq<u8> = if m < 0 {
        seq![45u8]
    } else {
        Seq::<u8>::empty()
    };
    sign + spec_digits(a / 1000) + spec_frac_chars(a % 1000)
}

/// Unsigned decimal parse into thousandths: integer digits, optionally a
/// point and one to three fraction digits.
pub open spec fn spec_parse_unsigned(s: Seq<u8>) -> Option<int> {
    let dot = spec_find(s, 46);
    if dot == s.len() {
        if 1 <= s.len() <= 12 && all_digits(s) {
            Some(spec_dec_val(s) * 1000)
        } else {
            None
        }
    } else {
        let ip = s.take(dot);
        let fr = s.skip(dot + 1);
        if 1 <= ip.len() <= 12 && all_digits(ip) && 1 <= fr.len() <= 3 && all_digits(fr) {
            Some(spec_dec_val(ip) * 1000 + spec_dec_val(fr) * spec_pow10((3 - fr.len()) as nat))
        } else {
            None
        }
    }
}

/// Parse of the value field: an optional leading minus, then an unsigned
/// decimal in thousandths.
pub open spec fn spec_parse_value(s: Seq<u8>) -> Option<int> {
    if s.len() == 0 {
        None
    } else if s[0] == 45 {
        match spec_parse_unsigned(s.skip(1)) {
            Some(v) => Some(-v),
            None => None,
        }
    } else {
        spec_parse_unsigned(s)
    }
}

pub proof fn lemma_parse_value_bound(s: Seq<u8>)
    ensures
        spec_parse_value(s) is Some ==> value_valid(spec_parse_value(s)->Some_0),
{
    lemma_pow10_vals();
    if s.len() > 0 {
        let u = if s[0] == 45 {
            s.skip(1)
        } else {
            s
        };
        if spec_parse_unsigned(u) is Some {
            let dot = spec_find(u, 46);
            lemma_find_props(u, 46);
            if dot == u.len() {
                lemma_dec_val_bound(u);
                lemma_pow10_mono(u.len(), 12);
            } else {
                let ip = u.take(dot);
                let fr = u.skip(dot + 1);
                if 1 <= ip.len() <= 12 && all_digits(ip) && 1 <= fr.len() <= 3 && all_digits(fr) {
                    lemma_dec_val_bound(ip);
                    lemma_pow10_mono(ip.len(), 12);
                    lemma_dec_val_bound(fr);
                    lemma_pow10_vals();
                    if fr.len() == 1 {
                        assert(spec_dec_val(fr) * spec_pow10(2) <= 9 * 100);
                    } else if fr.len() == 2 {
                        assert(spec_dec_val(fr) * spec_pow10(1) <= 99 * 10);
                    } else {
                        assert(spec_dec_val(fr) * spec_pow10(0) <= 999);
                    }
                }
            }
        }
    }
}

pub proof fn lemma_dec_val_1(a: u8)
    ensures
        spec_dec_val(seq![a]) == a - 48,
{
    assert(seq![a].drop_last() =~= Seq::<u8>::empty());
    assert(spec_dec_val(Seq::<u8>::empty()) == 0);
}

pub proof fn lemma_dec_val_2(a: u8, b: u8)
    ensures
        spec_dec_val(seq![a, b]) == (a - 48) * 10 + (b - 48),
{
    assert(seq![a, b].drop_last() =~= seq![a]);
    lemma_dec_val_1(a);
}

pub proof fn lemma_dec_val_3(a: u8, b: u8, c: u8)
    ensures
        spec_dec_val(seq![a, b, c]) == ((a - 48) * 10 + (b - 48)) * 10 + (c - 48),
{
    assert(seq![a, b, c].drop_last() =~= seq![a, b]);
    lemma_dec_val_2(a, b);
}

/// Rendering a value in thousandths and parsing it back returns the value.
#[verifier::rlimit(60)]
pub proof fn lemma_value_roundtrip(m: int)
    requires
        value_valid(m),
    ensures
        spec_parse_value(spec_value_chars(m)) == Some(m),
{
    lemma_pow10_vals();
    let a = if m < 0 {
        -m
    } else {
        m
    };
    let ip = a / 1000;
    let f = a % 1000;
    lemma_digits_props(ip);
    let digits = spec_digits(ip);
    let frac = spec_frac_chars(f);
    let unsigned = digits + frac;
    assert(ip < spec_pow10(12));
    assert(digits.len() <= 12);
    // locate the dot
    if f == 0 {
        assert(unsigned =~= digits);
        lemma_find_absent(digits, 46);
        assert(spec_parse_unsigned(unsigned) == Some(spec_dec_val(digits) * 1000));
    } else {
        lemma_find_concat(digits, frac, 46);
        lemma_find_props(frac, 46);
        assert(frac[0] == 46);
        assert(spec_find(frac, 46) == 0);
        let dot = spec_find(unsigned, 46);
        assert(dot == digits.len());
        assert(unsigned.take(dot) =~= digits);
        let fr = unsigned.skip(dot + 1);
        assert(fr =~= frac.skip(1));
        if f % 100 == 0 {
            assert(fr =~= seq![spec_digit(f / 100)]);
            lemma_dec_val_1(spec_digit(f / 100));
            assert(spec_dec_val(fr) == f / 100);
            assert(spec_dec_val(fr) * spec_pow10(2) == f) by {
                assert(f == (f / 100) * 100 + f % 100);
            }
        } else if f % 10 == 0 {
            assert(fr =~= seq![spec_digit(f / 100), spec_digit((f / 10) % 10)]);
            lemma_dec_val_2(spec_digit(f / 100), spec_digit((f / 10) % 10));
            assert(spec_dec_val(fr) == (f / 100) * 10 + (f / 10) % 10);
            assert(spec_dec_val(fr) * spec_pow10(1) == f) by {
                assert(f / 10 == (f / 100) * 10 + (f / 10) % 10);
                assert(f == (f / 10) * 10 + f % 10);
            }
        } else {
            assert(fr =~= seq![spec_digit(f / 100), spec_digit((f / 10) % 10), spec_digit(f % 10)]);
            lemma_dec_val_3(spec_digit(f / 100), spec_digit((f / 10) % 10), spec_digit(f % 10));
            assert(spec_dec_val(fr) == ((f / 100) * 10 + (f / 10) % 10) * 10 + f % 10);
            assert(spec_dec_val(fr) * spec_pow10(0) == f) by {
                assert(f / 10 == (f / 100) * 10 + (f / 10) % 10);
                assert(f == (f / 10) * 10 + f % 10);
            }
        }
        assert(spec_parse_unsigned(unsigned) == Some(spec_dec_val(digits) * 1000 + f));
    }
    assert(spec_dec_val(digits) * 1000 + f == a) by {
        assert(a == (a / 1000) * 1000 + a % 1000);
    }
    if m < 0 {
        let s = spec_value_chars(m);
        assert(s =~= seq![45u8] + unsigned);
        assert(s[0] == 45);
        assert(s.skip(1) =~= unsigned);
    } else {
        let s = spec_value_chars(m);
        assert(s =~= unsigned);
        assert(is_digit(s[0]));
    }
}

// ---------------------------------------------------------------------------
// The timestamp field: fixed-width ISO-8601 with nanosecond precision,
// `YYYY-MM-DDThh:mm:ss.nnnnnnnnnZ`.
// ---------------------------------------------------------------------------

pub open spec fn spec_ts_chars(t: Timestamp) -> Seq<u8> {
    spec_padded(t.year as int, 4) + seq![45u8] + spec_padded(t.month as int, 2) + seq![45u8]
        + spec_padded(t.day as int, 2) + seq![84u8] + spec_padded(t.hour as int, 2) + seq![58u8]
        + spec_padded(t.minute as int, 2) + seq![58u8] + spec_padded(t.second as int, 2)
        + seq![46u8] + spec_padded(t.nanosecond as int, 9) + seq![90u8]
}

/// A non-empty all-digit field, most significant digit first.
pub open spec fn spec_parse_dec(s: Seq<u8>) -> Option<int> {
    if s.len() >= 1 && all_digits(s) {
        Some(spec_dec_val(s))
    } else {
        None
    }
}

/// Nanoseconds from the optional second fraction: zero for a timestamp that
/// ends right after the seconds, otherwise a point and one to nine digits
/// scaled to nanoseconds.
pub open spec fn spec_parse_nano(s: Seq<u8>) -> Option<int> {
    let n = s.len() as int;
    if n == 20 {
        Some(0)
    } else if 22 <= n <= 30 && s[19] == 46 {
        let fr = s.subrange(20, n - 1);
        if all_digits(fr) {
            Some(spec_dec_val(fr) * spec_pow10((9 - fr.len()) as nat))
        } else {
            None
        }
    } else {
        None
    }
}

pub open spec fn spec_parse_ts(s: Seq<u8>) -> Option<Timestamp> {
    let n = s.len() as int;
    if n < 20 {
        None
    } else if !(s[4] == 45 && s[7] == 45 && s[10] == 84 && s[13] == 58 && s[16] == 58 && s[n - 1]
        == 90) {
        None
    } else {
        let y = spec_parse_dec(s.subrange(0, 4));
        let mo = spec_parse_dec(s.subrange(5, 7));
        let d = spec_parse_dec(s.subrange(8, 10));
        let h = spec_parse_dec(s.subrange(11, 13));
        let mi = spec_parse_dec(s.subrange(14, 16));
        let sec = spec_parse_dec(s.subrange(17, 19));
        let nano = spec_parse_nano(s);
        if y is Some && mo is Some && d is Some && h is Some && mi is Some && sec is Some
            && nano is Some {
            let t = Timestamp {
                year: y->Some_0 as u16,
                month: mo->Some_0 as u8,
                day: d->Some_0 as u8,
                hour: h->Some_0 as u8,
                minute: mi->Some_0 as u8,
                second: sec->Some_0 as u8,
                nanosecond: nano->Some_0 as u32,
            };
            if ts_valid(t) {
                Some(t)
            } else {
                None
            }
        } else {
            None
        }
    }
}

/// Rendering a valid timestamp and parsing it back returns the timestamp.
#[verifier::rlimit(60)]
pub proof fn lemma_ts_roundtrip(t: Timestamp)
    requires
        ts_valid(t),
    ensures
        spec_parse_ts(spec_ts_chars(t)) == Some(t),
{
    lemma_pow10_vals();
    lemma_padded_props(t.year as int, 4);
    lemma_padded_props(t.month as int, 2);
    lemma_padded_props(t.day as int, 2);
    lemma_padded_props(t.hour as int, 2);
    lemma_padded_props(t.minute as int, 2);
    lemma_padded_props(t.second as int, 2);
    lemma_padded_props(t.nanosecond as int, 9);
    let s = spec_ts_chars(t);
    assert(s.len() == 30);
    assert(s.subrange(0, 4) =~= spec_padded(t.year as int, 4));
    assert(s.subrange(5, 7) =~= spec_padded(t.month as int, 2));
    assert(s.subrange(8, 10) =~= spec_padded(t.day as int, 2));
    assert(s.subrange(11, 13) =~= spec_padded(t.hour as int, 2));
    assert(s.subrange(14, 16) =~= spec_padded(t.minute as int, 2));
    assert(s.subrange(17, 19) =~= spec_padded(t.second as int, 2));
    assert(s.subrange(20, 29) =~= spec_padded(t.nanosecond as int, 9));
    assert(s[4] == 45 && s[7] == 45 && s[10] == 84 && s[13] == 58 && s[16] == 58 && s[19] == 46
        && s[29] == 90);
}

/// Every byte of a rendered timestamp is a digit or a fixed separator, so
/// none is a field or line delimiter.
pub proof fn lemma_ts_chars_class(t: Timestamp)
    ensures
        spec_ts_chars(t).len() == 30,
        forall|i: int|
            0 <= i < 30 ==> (is_digit(#[trigger] spec_ts_chars(t)[i]) || spec_ts_chars(t)[i] == 45
                || spec_ts_chars(t)[i] == 84 || spec_ts_chars(t)[i] == 58 || spec_ts_chars(t)[i]
                == 46 || spec_ts_chars(t)[i] == 90),
{
    lemma_padded_props(t.year as int, 4);
    lemma_padded_props(t.month as int, 2);
    lemma_padded_props(t.day as int, 2);
    lemma_padded_props(t.hour as int, 2);
    lemma_padded_props(t.minute as int, 2);
    lemma_padded_props(t.second as int, 2);
    lemma_padded_props(t.nanosecond as int, 9);
}

// ---------------------------------------------------------------------------
// The channel field: 32 lowercase hexadecimal digits in five hyphenated
// groups of 8-4-4-4-12.
// ---------------------------------------------------------------------------

pub open spec fn spec_uuid_chars(c: ChannelId) -> Seq<u8> {
    let a = c.hi as int / 0x10000;
    let b = a / 0x10000;
    let d = c.lo as int / 0x1000000000000;
    spec_hexw(b, 8) + seq![45u8] + spec_hexw(a % 0x10000, 4) + seq![45u8] + spec_hexw(
        c.hi as int % 0x10000,
        4,
    ) + seq![45u8] + spec_hexw(d, 4) + seq![45u8] + spec_hexw(c.lo as int % 0x1000000000000, 12)
}

/// A non-empty all-hexadecimal field, most significant digit first.
pub open spec fn spec_parse_hexg(s: Seq<u8>) -> Option<int> {
    if s.len() >= 1 && all_hex(s) {
        Some(spec_hex_val(s))
    } else {
        None
    }
}

pub open spec fn spec_parse_uuid(s: Seq<u8>) -> Option<ChannelId> {
    if s.len() != 36 {
        None
    } else if !(s[8] == 45 && s[13] == 45 && s[18] == 45 && s[23] == 45) {
        None
    } else {
        let g0 = spec_parse_hexg(s.subrange(0, 8));
        let g1 = spec_parse_hexg(s.subrange(9, 13));
        let g2 = spec_parse_hexg(s.subrange(14, 18));
        let g3 = spec_parse_hexg(s.subrange(19, 23));
        let g4 = spec_parse_hexg(s.subrange(24, 36));
        if g0 is Some && g1 is Some && g2 is Some && g3 is Some && g4 is Some {
            Some(
                ChannelId {
                    hi: ((g0->Some_0 * 0x10000 + g1->Some_0) * 0x10000 + g2->Some_0) as u64,
                    lo: (g3->Some_0 * 0x1000000000000 + g4->Some_0) as u64,
                },
            )
        } else {
            None
        }
    }
}

/// Rendering a channel identifier and parsing it back returns the identifier.
#[verifier::rlimit(60)]
pub proof fn lemma_uuid_roundtrip(c: ChannelId)
    ensures
        spec_parse_uuid(spec_uuid_chars(c)) == Some(c),
{
    lemma_pow16_vals();
    let a = c.hi as int / 0x10000;
    let b = a / 0x10000;
    let d = c.lo as int / 0x1000000000000;
    assert(b < 0x100000000) by {
        assert((c.hi as int) < 0x10000 * 0x1000000000000);
        assert(a < 0x1000000000000);
    }
    assert(d < 0x10000) by {
        assert((c.lo as int) < 0x1000000000000 * 0x10000);
    }
    lemma_hexw_props(b, 8);
    lemma_hexw_props(a % 0x10000, 4);
    lemma_hexw_props(c.hi as int % 0x10000, 4);
    lemma_hexw_props(d, 4);
    lemma_hexw_props(c.lo as int % 0x1000000000000, 12);
    let s = spec_uuid_chars(c);
    assert(s.len() == 36);
    assert(s.subrange(0, 8) =~= spec_hexw(b, 8));
    assert(s.subrange(9, 13) =~= spec_hexw(a % 0x10000, 4));
    assert(s.subrange(14, 18) =~= spec_hexw(c.hi as int % 0x10000, 4));
    assert(s.subrange(19, 23) =~= spec_hexw(d, 4));
    assert(s.subrange(24, 36) =~= spec_hexw(c.lo as int % 0x1000000000000, 12));
    assert(s[8] == 45 && s[13] == 45 && s[18] == 45 && s[23] == 45);
    assert((b * 0x10000 + a % 0x10000) == a);
    assert((a * 0x10000 + c.hi as int % 0x10000) == c.hi as int);
    assert((d * 0x1000000000000 + c.lo as int % 0x1000000000000) == c.lo as int);
}

/// Every byte of a rendered channel identifier is a hexadecimal digit or a
/// hyphen.
pub proof fn lemma_uuid_chars_class(c: ChannelId)
    ensures
        spec_uuid_chars(c).len() == 36,
        forall|i: int|
            0 <= i < 36 ==> (is_hex_char(#[trigger] spec_uuid_chars(c)[i]) || spec_uuid_chars(
                c,
            )[i] == 45),
{
    let a = c.hi as int / 0x10000;
    let b = a / 0x10000;
    let d = c.lo as int / 0x1000000000000;
    lemma_hexw_props(b, 8);
    lemma_hexw_props(a % 0x10000, 4);
    lemma_hexw_props(c.hi as int % 0x10000, 4);
    lemma_hexw_props(d, 4);
    lemma_hexw_props(c.lo as int % 0x1000000000000, 12);
}

/// Every byte of a rendered value is a digit, a minus, or a point.
pub proof fn lemma_value_chars_class(m: int)
    requires
        value_valid(m),
    ensures
        forall|i: int|
            0 <= i < spec_value_chars(m).len() ==> (is_digit(#[trigger] spec_value_chars(m)[i])
                || spec_value_chars(m)[i] == 45 || spec_value_chars(m)[i] == 46),
        spec_value_chars(m).len() >= 1,
{
    let a = if m < 0 {
        -m
    } else {
        m
    };
    lemma_digits_props(a / 1000);
}

/// When `c` occurs nowhere in `s`, the find comes back as the length.
pub proof fn lemma_find_absent(s: Seq<u8>, c: u8)
    requires
        forall|i: int| 0 <= i < s.len() ==> s[i] != c,
    ensures
        spec_find(s, c) == s.len(),
    decreases s.len(),
{
    if s.len() > 0 {
        lemma_find_absent(s.skip(1), c);
    }
}

/// The value of a prefix of a digit string never exceeds the whole string's.
pub proof fn lemma_dec_val_prefix_mono(s: Seq<u8>, k: int)
    requires
        all_digits(s),
        0 <= k <= s.len(),
    ensures
        spec_dec_val(s.take(k)) <= spec_dec_val(s),
    decreases s.len() - k,
{
    if k < s.len() {
        assert(s.take(k + 1).drop_last() =~= s.take(k));
        assert(all_digits(s.take(k)));
        lemma_dec_val_bound(s.take(k));
        assert(is_digit(s[k]));
        assert(spec_dec_val(s.take(k + 1)) >= spec_dec_val(s.take(k)));
        lemma_dec_val_prefix_mono(s, k + 1);
    } else {
        assert(s.take(k) =~= s);
    }
}

/// A prefix free of `c` up to an occurrence (or the end) pins the find down.
pub proof fn lemma_find_is(s: Seq<u8>, c: u8, k: int)
    requires
        0 <= k <= s.len(),
        forall|i: int| 0 <= i < k ==> s[i] != c,
        k < s.len() ==> s[k] == c,
    ensures
        spec_find(s, c) == k,
    decreases s.len(),
{
    if s.len() > 0 && s[0] != c {
        lemma_find_is(s.skip(1), c, k - 1);
    }
}

// ---------------------------------------------------------------------------
// Executable rendering
// ---------------------------------------------------------------------------

/// Appends the decimal digits of `n`, most significant first.
pub fn push_digits(out: &mut Vec<u8>, n: u64)
    ensures
        final(out)@ == old(out)@ + spec_digits(n as int),
    decreases n,
{
    if n < 10 {
        out.push(48 + (n as u8));
    } else {
        push_digits(out, n / 10);
        out.push(48 + ((n % 10) as u8));
        proof {
            assert(final(out)@ =~= old(out)@ + spec_digits(n as int));
        }
    }
}

/// Appends `w` zero-padded decimal digits of `n`.
pub fn push_padded(out: &mut Vec<u8>, n: u64, w: usize)
    ensures
        final(out)@ == old(out)@ + spec_padded(n as int, w as nat),
    decreases w,
{
    if w > 0 {
        push_padded(out, n / 10, w - 1);
        out.push(48 + ((n % 10) as u8));
        proof {
            assert(final(out)@ =~= old(out)@ + spec_padded(n as int, w as nat));
        }
    } else {
        proof {
            assert(final(out)@ =~= old(out)@ + spec_padded(n as int, 0));
        }
    }
}

/// Appends `w` zero-padded lowercase hexadecimal digits of `n`.
pub fn push_hexw(out: &mut Vec<u8>, n: u64, w: usize)
    ensures
        final(out)@ == old(out)@ + spec_hexw(n as int, w as nat),
    decreases w,
{
    if w > 0 {
        push_hexw(out, n / 16, w - 1);
        let d: u8 = (n % 16) as u8;
        if d < 10 {
            out.push(48 + d);
        } else {
            out.push(87 + d);
        }
        proof {
            assert(final(out)@ =~= old(out)@ + spec_hexw(n as int, w as nat));
        }
    } else {
        proof {
            assert(final(out)@ =~= old(out)@ + spec_hexw(n as int, 0));
        }
    }
}

/// Appends the decimal rendering of a value in thousandths.
#[verifier::rlimit(100)]
pub fn push_value(out: &mut Vec<u8>, m: i64)
    requires
        value_valid(m as int),
    ensures
        final(out)@ == old(out)@ + spec_value_chars(m as int),
{
    let ghost sign: Seq<u8> = if m < 0 {
        seq![45u8]
    } else {
        Seq::<u8>::empty()
    };
    let a: i64 = if m < 0 {
        out.push(45);
        -m
    } else {
        m
    };
    proof {
        assert(out@ =~= old(out)@ + sign);
    }
    let ghost base = out@;
    push_digits(out, (a / 1000) as u64);
    let ghost with_digits = out@;
    assert(with_digits == base + spec_digits(a as int / 1000));
    let f: i64 = a % 1000;
    if f != 0 {
        out.push(46);
        if f % 100 == 0 {
            out.push(48 + ((f / 100) as u8));
            proof {
                assert(out@ =~= with_digits + spec_frac_chars(f as int));
            }
        } else if f % 10 == 0 {
            out.push(48 + ((f / 100) as u8));
            out.push(48 + (((f / 10) % 10) as u8));
            proof {
                assert(out@ =~= with_digits + spec_frac_chars(f as int));
            }
        } else {
            out.push(48 + ((f / 100) as u8));
            out.push(48 + (((f / 10) % 10) as u8));
            out.push(48 + ((f % 10) as u8));
            proof {
                assert(out@ =~= with_digits + spec_frac_chars(f as int));
            }
        }
    } else {
        proof {
            assert(out@ =~= with_digits + spec_frac_chars(f as int));
        }
    }
    proof {
        assert(final(out)@ =~= old(out)@ + spec_value_chars(m as int));
    }
}

/// Appends the fixed-width ISO-8601 rendering of a timestamp.
pub fn push_ts(out: &mut Vec<u8>, t: &Timestamp)
    ensures
        final(out)@ == old(out)@ + spec_ts_chars(*t),
{
    push_padded(out, t.year as u64, 4);
    out.push(45);
    push_padded(out, t.month as u64, 2);
    out.push(45);
    push_padded(out, t.day as u64, 2);
    out.push(84);
    push_padded(out, t.hour as u64, 2);
    out.push(58);
    push_padded(out, t.minute as u64, 2);
    out.push(58);
    push_padded(out, t.second as u64, 2);
    out.push(46);
    push_padded(out, t.nanosecond as u64, 9);
    out.push(90);
    proof {
        assert(final(out)@ =~= old(out)@ + spec_ts_chars(*t));
    }
}

/// Appends the hyphenated hexadecimal rendering of a channel identifier.
pub fn push_uuid(out: &mut Vec<u8>, c: &ChannelId)
    ensures
        final(out)@ == old(out)@ + spec_uuid_chars(*c),
{
    let a: u64 = c.hi / 0x10000;
    let b: u64 = a / 0x10000;
    let d: u64 = c.lo / 0x1000000000000;
    push_hexw(out, b, 8);
    out.push(45);
    push_hexw(out, a % 0x10000, 4);
    out.push(45);
    push_hexw(out, c.hi % 0x10000, 4);
    out.push(45);
    push_hexw(out, d, 4);
    out.push(45);
    push_hexw(out, c.lo % 0x1000000000000, 12);
    proof {
        assert(final(out)@ =~= old(out)@ + spec_uuid_chars(*c));
    }
}

// ---------------------------------------------------------------------------
// Executable parsing
// ---------------------------------------------------------------------------

/// Scans `bytes[from..to]` for the first occurrence of `c`, returning its
/// index, or `to` when it is absent.
pub fn find_byte(bytes: &Vec<u8>, from: usize, to: usize, c: u8) -> (r: usize)
    requires
        from <= to <= bytes@.len(),
    ensures
        from <= r <= to,
        r - from == spec_find(bytes@.subrange(from as int, to as int), c),
{
    let ghost s = bytes@.subrange(from as int, to as int);
    let mut i: usize = from;
    while i < to
        invariant
            from <= i <= to <= bytes@.len(),
            s == bytes@.subrange(from as int, to as int),
            forall|k: int| from <= k < i ==> bytes@[k] != c,
        decreases to - i,
    {
        if bytes[i] == c {
            proof {
                lemma_find_is(s, c, i - from);
            }
            return i;
        }
        i = i + 1;
    }
    proof {
        lemma_find_is(s, c, to - from);
    }
    to
}

/// Parses `bytes[from..to]` as a non-empty run of at most twelve decimal
/// digits, most significant first.
pub fn parse_dec_range(bytes: &Vec<u8>, from: usize, to: usize) -> (r: Option<u64>)
    requires
        from <= to <= bytes@.len(),
        to - from <= 12,
    ensures
        r is Some <==> spec_parse_dec(bytes@.subrange(from as int, to as int)) is Some,
        r is Some ==> r->0 as int == spec_parse_dec(bytes@.subrange(from as int, to as int))->Some_0,
{
    let ghost s = bytes@.subrange(from as int, to as int);
    if to == from {
        return None;
    }
    let mut acc: u64 = 0;
    let mut i: usize = from;
    while i < to
        invariant
            from <= i <= to <= bytes@.len(),
            to - from <= 12,
            s == bytes@.subrange(from as int, to as int),
            all_digits(bytes@.subrange(from as int, i as int)),
            acc as int == spec_dec_val(bytes@.subrange(from as int, i as int)),
            (acc as int) < spec_pow10((i - from) as nat),
        decreases to - i,
    {
        let c = bytes[i];
        if c < 48 || c > 57 {
            proof {
                assert(s[i - from] == c);
                assert(!all_digits(s));
            }
            return None;
        }
        proof {
            lemma_pow10_vals();
            lemma_pow10_mono((i - from) as nat, 11);
            assert(bytes@.subrange(from as int, i as int + 1).drop_last() =~= bytes@.subrange(
                from as int,
                i as int,
            ));
            assert(bytes@.subrange(from as int, i as int + 1).last() == bytes@[i as int]);
        }
        acc = acc * 10 + ((c - 48) as u64);
        i = i + 1;
    }
    proof {
        assert(s =~= bytes@.subrange(from as int, to as int));
        assert(all_digits(s));
    }
    Some(acc)
}

/// Parses `bytes[from..to]` as a non-empty run of at most twelve lowercase
/// hexadecimal digits, most significant first.
pub fn parse_hex_range(bytes: &Vec<u8>, from: usize, to: usize) -> (r: Option<u64>)
    requires
        from <= to <= bytes@.len(),
        to - from <= 12,
    ensures
        r is Some <==> spec_parse_hexg(bytes@.subrange(from as int, to as int)) is Some,
        r is Some ==> r->0 as int == spec_parse_hexg(
            bytes@.subrange(from as int, to as int),
        )->Some_0,
{
    let ghost s = bytes@.subrange(from as int, to as int);
    if to == from {
        return None;
    }
    let mut acc: u64 = 0;
    let mut i: usize = from;
    while i < to
        invariant
            from <= i <= to <= bytes@.len(),
            to - from <= 12,
            s == bytes@.subrange(from as int, to as int),
            all_hex(bytes@.subrange(from as int, i as int)),
            acc as int == spec_hex_val(bytes@.subrange(from as int, i as int)),
            (acc as int) < spec_pow16((i - from) as nat),
        decreases to - i,
    {
        let c = bytes[i];
        let d: u64 = if 48 <= c && c <= 57 {
            (c - 48) as u64
        } else if 97 <= c && c <= 102 {
            (c - 87) as u64
        } else {
            proof {
                assert(s[i - from] == c);
                assert(!all_hex(s));
            }
            return None;
        };
        proof {
            lemma_pow16_vals();
            lemma_pow16_mono((i - from) as nat, 11);
            assert(bytes@.subrange(from as int, i as int + 1).drop_last() =~= bytes@.subrange(
                from as int,
                i as int,
            ));
            assert(bytes@.subrange(from as int, i as int + 1).last() == bytes@[i as int]);
        }
        acc = acc * 16 + d;
        i = i + 1;
    }
    proof {
        assert(s =~= bytes@.subrange(from as int, to as int));
        assert(all_hex(s));
    }
    Some(acc)
}

/// Parses `bytes[from..to]` as a value field, yielding thousandths.
pub fn parse_value(bytes: &Vec<u8>, from: usize, to: usize) -> (r: Option<i64>)
    requires
        from <= to <= bytes@.len(),
    ensures
        r is Some <==> spec_parse_value(bytes@.subrange(from as int, to as int)) is Some,
        r is Some ==> r->0 as int == spec_parse_value(
            bytes@.subrange(from as int, to as int),
        )->Some_0,
{
    let ghost s = bytes@.subrange(from as int, to as int);
    proof {
        lemma_pow10_vals();
    }
    if to == from {
        return None;
    }
    let neg: bool = bytes[from] == 45;
    let st: usize = if neg {
        from + 1
    } else {
        from
    };
    let ghost u = bytes@.subrange(st as int, to as int);
    proof {
        if neg {
            assert(u =~= s.skip(1));
        } else {
            assert(u =~= s);
        }
    }
    let dot = find_byte(bytes, st, to, 46);
    let milli: u64;
    if dot == to {
        if to - st < 1 || to - st > 12 {
            return None;
        }
        let ip = match parse_dec_range(bytes, st, to) {
            Some(v) => v,
            None => {
                return None;
            },
        };
        proof {
            lemma_dec_val_bound(u);
            lemma_pow10_mono(u.len(), 12);
        }
        milli = ip * 1000;
    } else {
        let ghost ipc = u.take(spec_find(u, 46));
        let ghost frc = u.skip(spec_find(u, 46) + 1);
        proof {
            assert(ipc =~= bytes@.subrange(st as int, dot as int));
            assert(frc =~= bytes@.subrange(dot as int + 1, to as int));
        }
        if dot - st < 1 || dot - st > 12 {
            return None;
        }
        if to - dot - 1 < 1 || to - dot - 1 > 3 {
            return None;
        }
        let ip = match parse_dec_range(bytes, st, dot) {
            Some(v) => v,
            None => {
                return None;
            },
        };
        let fr = match parse_dec_range(bytes, dot + 1, to) {
            Some(v) => v,
            None => {
                return None;
            },
        };
        proof {
            lemma_dec_val_bound(ipc);
            lemma_pow10_mono(ipc.len(), 12);
            lemma_dec_val_bound(frc);
            lemma_pow10_mono(frc.len(), 3);
        }
        let w: usize = to - dot - 1;
        let pw: u64 = if w == 1 {
            100
        } else if w == 2 {
            10
        } else {
            1
        };
        milli = ip * 1000 + fr * pw;
    }
    if neg {
        Some(-(milli as i64))
    } else {
        Some(milli as i64)
    }
}

/// Parses `bytes[from..to]` as an ISO-8601 timestamp: fixed-width date and
/// time, then an optional second fraction of one to nine digits, then `Z`.
pub fn parse_ts(bytes: &Vec<u8>, from: usize, to: usize) -> (r: Option<Timestamp>)
    requires
        from <= to <= bytes@.len(),
    ensures
        r == spec_parse_ts(bytes@.subrange(from as int, to as int)),
{
    let ghost s = bytes@.subrange(from as int, to as int);
    let n = to - from;
    if n < 20 {
        return None;
    }
    if !(bytes[from + 4] == 45 && bytes[from + 7] == 45 && bytes[from + 10] == 84 && bytes[from
        + 13] == 58 && bytes[from + 16] == 58 && bytes[to - 1] == 90) {
        return None;
    }
    proof {
        assert(s.subrange(0, 4) =~= bytes@.subrange(from as int, from as int + 4));
        assert(s.subrange(5, 7) =~= bytes@.subrange(from as int + 5, from as int + 7));
        assert(s.subrange(8, 10) =~= bytes@.subrange(from as int + 8, from as int + 10));
        assert(s.subrange(11, 13) =~= bytes@.subrange(from as int + 11, from as int + 13));
        assert(s.subrange(14, 16) =~= bytes@.subrange(from as int + 14, from as int + 16));
        assert(s.subrange(17, 19) =~= bytes@.subrange(from as int + 17, from as int + 19));
    }
    let nano: u64;
    if n == 20 {
        nano = 0;
    } else {
        if n < 22 || n > 30 || bytes[from + 19] != 46 {
            return None;
        }
        let ghost fr = s.subrange(20, n as int - 1);
        proof {
            assert(fr =~= bytes@.subrange(from as int + 20, to as int - 1));
        }
        let fv = match parse_dec_range(bytes, from + 20, to - 1) {
            Some(v) => v,
            None => {
                return None;
            },
        };
        let w: usize = n - 21;
        proof {
            lemma_pow10_vals();
            lemma_dec_val_bound(fr);
        }
        let mult: u64 = if w == 1 {
            100000000
        } else if w == 2 {
            10000000
        } else if w == 3 {
            1000000
        } else if w == 4 {
            100000
        } else if w == 5 {
            10000
        } else if w == 6 {
            1000
        } else if w == 7 {
            100
        } else if w == 8 {
            10
        } else {
            1
        };
        proof {
            assert(mult as int == spec_pow10((9 - w) as nat));
            lemma_pow10_add(w as nat, (9 - w) as nat);
            lemma_pow10_pos((9 - w) as nat);
            assert((fv as int) * (mult as int) < 1000000000) by (nonlinear_arith)
                requires
                    0 <= (fv as int),
                    (fv as int) < spec_pow10(w as nat),
                    (mult as int) == spec_pow10((9 - w) as nat),
                    spec_pow10(w as nat) * spec_pow10((9 - w) as nat) == 1000000000,
                    spec_pow10((9 - w) as nat) >= 1,
            ;
        }
        nano = fv * mult;
    }
    let y = match parse_dec_range(bytes, from, from + 4) {
        Some(v) => v,
        None => {
            return None;
        },
    };
    let mo = match parse_dec_range(bytes, from + 5, from + 7) {
        Some(v) => v,
        None => {
            return None;
        },
    };
    let d = match parse_dec_range(bytes, from + 8, from + 10) {
        Some(v) => v,
        None => {
            return None;
        },
    };
    let h = match parse_dec_range(bytes, from + 11, from + 13) {
        Some(v) => v,
        None => {
            return None;
        },
    };
    let mi = match parse_dec_range(bytes, from + 14, from + 16) {
        Some(v) => v,
        None => {
            return None;
        },
    };
    let sec = match parse_dec_range(bytes, from + 17, from + 19) {
        Some(v) => v,
        None => {
            return None;
        },
    };
    proof {
        lemma_pow10_vals();
        lemma_dec_val_bound(s.subrange(0, 4));
        lemma_dec_val_bound(s.subrange(5, 7));
        lemma_dec_val_bound(s.subrange(8, 10));
        lemma_dec_val_bound(s.subrange(11, 13));
        lemma_dec_val_bound(s.subrange(14, 16));
        lemma_dec_val_bound(s.subrange(17, 19));
    }
    let t = Timestamp {
        year: y as u16,
        month: mo as u8,
        day: d as u8,
        hour: h as u8,
        minute: mi as u8,
        second: sec as u8,
        nanosecond: nano as u32,
    };
    if 1 <= t.month && t.month <= 12 && 1 <= t.day && t.day <= 31 && t.hour < 24 && t.minute < 60
        && t.second < 60 {
        Some(t)
    } else {
        None
    }
}

/// Parses `bytes[from..to]` as a hyphenated hexadecimal channel identifier.
pub fn parse_uuid(bytes: &Vec<u8>, from: usize, to: usize) -> (r: Option<ChannelId>)
    requires
        from <= to <= bytes@.len(),
    ensures
        r == spec_parse_uuid(bytes@.subrange(from as int, to as int)),
{
    let ghost s = bytes@.subrange(from as int, to as int);
    if to - from != 36 {
        return None;
    }
    if !(bytes[from + 8] == 45 && bytes[from + 13] == 45 && bytes[from + 18] == 45 && bytes[from
        + 23] == 45) {
        return None;
    }
    proof {
        assert(s.subrange(0, 8) =~= bytes@.subrange(from as int, from as int + 8));
        assert(s.subrange(9, 13) =~= bytes@.subrange(from as int + 9, from as int + 13));
        assert(s.subrange(14, 18) =~= bytes@.subrange(from as int + 14, from as int + 18));
        assert(s.subrange(19, 23) =~= bytes@.subrange(from as int + 19, from as int + 23));
        assert(s.subrange(24, 36) =~= bytes@.subrange(from as int + 24, from as int + 36));
    }
    let g0 = match parse_hex_range(bytes, from, from + 8) {
        Some(v) => v,
        None => {
            return None;
        },
    };
    let g1 = match parse_hex_range(bytes, from + 9, from + 13) {
        Some(v) => v,
        None => {
            return None;
        },
    };
    let g2 = match parse_hex_range(bytes, from + 14, from + 18) {
        Some(v) => v,
        None => {
            return None;
        },
    };
    let g3 = match parse_hex_range(bytes, from + 19, from + 23) {
        Some(v) => v,
        None => {
            return None;
        },
    };
    let g4 = match parse_hex_range(bytes, from + 24, from + 36) {
        Some(v) => v,
        None => {
            return None;
        },
    };
    proof {
        lemma_pow16_vals();
        lemma_hex_val_bound(s.subrange(0, 8));
        lemma_hex_val_bound(s.subrange(9, 13));
        lemma_hex_val_bound(s.subrange(14, 18));
        lemma_hex_val_bound(s.subrange(19, 23));
        lemma_hex_val_bound(s.subrange(24, 36));
        lemma_pow16_mono(8, 12);
    }
    Some(ChannelId { hi: (g0 * 0x10000 + g1) * 0x10000 + g2, lo: g3 * 0x1000000000000 + g4 })
}

} // verus!
