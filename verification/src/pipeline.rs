//! The delivery pipeline's durable bookkeeping: rendering samples as cache
//! lines, parsing a cache file back, and deciding which samples stay queued.
//!
//! A cache file is plain text, one entry per line, the fields separated by
//! semicolons: channel identifier, ISO-8601 timestamp, decimal value. Lines
//! whose field count is wrong are skipped; a line with three parseable-looking
//! fields that do not parse makes the whole file unreadable.

use vstd::prelude::*;

use crate::sample::{Sample, sample_valid};
use crate::sample::{
    spec_uuid_chars, spec_ts_chars, spec_value_chars, spec_parse_uuid, spec_parse_ts,
    spec_parse_value, spec_find,
};
use crate::sample::{
    lemma_find_props, lemma_find_concat, lemma_find_absent, lemma_find_is, lemma_uuid_roundtrip,
    lemma_ts_roundtrip, lemma_value_roundtrip, lemma_uuid_chars_class, lemma_ts_chars_class,
    lemma_value_chars_class, lemma_parse_value_bound,
};
use crate::sample::{push_uuid, push_ts, push_value, parse_uuid, parse_ts, parse_value, find_byte};

verus! {

/// What one cache line means: not an entry at all, an entry that cannot be
/// read, or a parsed sample.
#[derive(Clone, Copy, Debug, PartialEq, Eq, Structural)]
pub enum LineParse {
    /// The line does not have three semicolon-separated fields.
    Skip,
    /// The line has three fields but one of them does not parse.
    Malformed,
    /// The line parses to this sample.
    Entry(Sample),
}

/// The rendered form of one cache entry, without the line terminator.
pub open spec fn spec_entry_chars(s: Sample) -> Seq<u8> {
    spec_uuid_chars(s.channel) + seq![59u8] + spec_ts_chars(s.stamp) + seq![59u8]
        + spec_value_chars(s.milli as int)
}

/// What one line of the cache file means. A line is split at its semicolons
/// into exactly three fields; any other field count is skipped, mirroring
/// lines the delivery pass tolerates in a hand-edited file.
pub open spec fn spec_parse_line(line: Seq<u8>) -> LineParse {
    let n = line.len() as int;
    let i = spec_find(line, 59);
    if i == n {
        LineParse::Skip
    } else {
        let j = i + 1 + spec_find(line.skip(i + 1), 59);
        if j == n {
            LineParse::Skip
        } else {
            let k = j + 1 + spec_find(line.skip(j + 1), 59);
            if k != n {
                LineParse::Skip
            } else {
                let u = spec_parse_uuid(line.take(i));
                let t = spec_parse_ts(line.subrange(i + 1, j));
                let v = spec_parse_value(line.skip(j + 1));
                if u is Some && t is Some && v is Some {
                    LineParse::Entry(
                        Sample {
                            channel: u->Some_0,
                            stamp: t->Some_0,
                            milli: v->Some_0 as i64,
                        },
                    )
                } else {
                    LineParse::Malformed
                }
            }
        }
    }
}

/// The rendered form of a whole sample list: one terminated line per sample.
pub open spec fn spec_render(samples: Seq<Sample>) -> Seq<u8>
    decreases samples.len(),
{
    if samples.len() == 0 {
        Seq::<u8>::empty()
    } else {
        spec_entry_chars(samples[0]) + seq![10u8] + spec_render(samples.skip(1))
    }
}

/// What a whole cache file means: the samples of its entry lines in order,
/// or nothing when some entry line is unreadable.
pub open spec fn spec_parse_cache(b: Seq<u8>) -> Option<Seq<Sample>>
    decreases b.len(),
    when b.len() >= 0
    via spec_parse_cache_decreases
{
    if b.len() == 0 {
        Some(Seq::<Sample>::empty())
    } else {
        let nl = spec_find(b, 10);
        let line = b.take(nl);
        let rest = if nl < b.len() {
            b.skip(nl + 1)
        } else {
            Seq::<u8>::empty()
        };
        match spec_parse_line(line) {
            LineParse::Malformed => None,
            LineParse::Skip => spec_parse_cache(rest),
            LineParse::Entry(s) => match spec_parse_cache(rest) {
                None => None,
                Some(t) => Some(seq![s] + t),
            },
        }
    }
}

#[via_fn]
proof fn spec_parse_cache_decreases(b: Seq<u8>) {
    lemma_find_props(b, 10);
}

/// The samples whose delivery failed, in order: sample `i` is kept exactly
/// when `ok[i]` is false.
pub open spec fn spec_failed(samples: Seq<Sample>, ok: Seq<bool>) -> Seq<Sample>
    recommends
        samples.len() == ok.len(),
    decreases samples.len(),
{
    if samples.len() == 0 {
        Seq::<Sample>::empty()
    } else {
        let front = spec_failed(samples.drop_last(), ok.drop_last());
        if ok.last() {
            front
        } else {
            front.push(samples.last())
        }
    }
}

pub proof fn lemma_failed_valid(samples: Seq<Sample>, ok: Seq<bool>)
    requires
        samples.len() == ok.len(),
        forall|i: int| 0 <= i < samples.len() ==> sample_valid(#[trigger] samples[i]),
    ensures
        forall|i: int|
            0 <= i < spec_failed(samples, ok).len() ==> sample_valid(
                #[trigger] spec_failed(samples, ok)[i],
            ),
    decreases samples.len(),
{
    if samples.len() > 0 {
        assert(forall|i: int|
            0 <= i < samples.len() - 1 ==> sample_valid(#[trigger] samples.drop_last()[i]));
        lemma_failed_valid(samples.drop_last(), ok.drop_last());
        let whole = spec_failed(samples, ok);
        let front = spec_failed(samples.drop_last(), ok.drop_last());
        assert forall|i: int| 0 <= i < whole.len() implies sample_valid(#[trigger] whole[i]) by {
            if i < front.len() {
                assert(whole[i] == front[i]);
            } else {
                assert(whole[i] == samples[samples.len() - 1]);
            }
        }
    }
}

// ---------------------------------------------------------------------------
// Round trips
// ---------------------------------------------------------------------------

/// Serializing one sample as a cache line and parsing the line back yields
/// the same channel identifier, timestamp, and value.
pub proof fn lemma_entry_roundtrip(s: Sample)
    requires
        sample_valid(s),
    ensures
        spec_parse_line(spec_entry_chars(s)) == LineParse::Entry(s),
{
    let u = spec_uuid_chars(s.channel);
    let t = spec_ts_chars(s.stamp);
    let v = spec_value_chars(s.milli as int);
    let line = spec_entry_chars(s);
    lemma_uuid_chars_class(s.channel);
    lemma_ts_chars_class(s.stamp);
    lemma_value_chars_class(s.milli as int);
    assert(forall|i: int| 0 <= i < u.len() ==> u[i] != 59);
    assert(forall|i: int| 0 <= i < t.len() ==> t[i] != 59);
    assert(forall|i: int| 0 <= i < v.len() ==> v[i] != 59);
    let tail1 = seq![59u8] + t + seq![59u8] + v;
    assert(line =~= u + tail1);
    lemma_find_concat(u, tail1, 59);
    assert(spec_find(tail1, 59) == 0);
    let i = spec_find(line, 59);
    assert(i == 36);
    let after1 = line.skip(i + 1);
    assert(after1 =~= t + (seq![59u8] + v));
    lemma_find_concat(t, seq![59u8] + v, 59);
    assert(spec_find(seq![59u8] + v, 59) == 0);
    assert(spec_find(after1, 59) == 30);
    let j = i + 1 + spec_find(after1, 59);
    assert(j == 67);
    let after2 = line.skip(j + 1);
    assert(after2 =~= v);
    lemma_find_absent(v, 59);
    let k = j + 1 + spec_find(after2, 59);
    assert(k == line.len());
    assert(line.take(i) =~= u);
    assert(line.subrange(i + 1, j) =~= t);
    lemma_uuid_roundtrip(s.channel);
    lemma_ts_roundtrip(s.stamp);
    lemma_value_roundtrip(s.milli as int);
}

/// Rendering a list of valid samples and parsing the text back yields
/// exactly that list.
pub proof fn lemma_render_roundtrip(samples: Seq<Sample>)
    requires
        forall|i: int| 0 <= i < samples.len() ==> sample_valid(#[trigger] samples[i]),
    ensures
        spec_parse_cache(spec_render(samples)) == Some(samples),
    decreases samples.len(),
{
    if samples.len() == 0 {
        assert(samples =~= Seq::<Sample>::empty());
    } else {
        let s0 = samples[0];
        let entry = spec_entry_chars(s0);
        let rest_r = spec_render(samples.skip(1));
        let b = spec_render(samples);
        assert(b == entry + seq![10u8] + rest_r);
        lemma_uuid_chars_class(s0.channel);
        lemma_ts_chars_class(s0.stamp);
        lemma_value_chars_class(s0.milli as int);
        assert(forall|i: int| 0 <= i < entry.len() ==> entry[i] != 10);
        assert(b =~= entry + (seq![10u8] + rest_r));
        lemma_find_concat(entry, seq![10u8] + rest_r, 10);
        assert(spec_find(seq![10u8] + rest_r, 10) == 0);
        let nl = spec_find(b, 10);
        assert(nl == entry.len());
        assert(nl < b.len());
        assert(b.take(nl) =~= entry);
        assert(b.skip(nl + 1) =~= rest_r);
        lemma_entry_roundtrip(s0);
        assert(forall|i: int|
            0 <= i < samples.skip(1).len() ==> sample_valid(#[trigger] samples.skip(1)[i]));
        lemma_render_roundtrip(samples.skip(1));
        assert(spec_parse_cache(b) == Some(seq![s0] + samples.skip(1)));
        assert(seq![s0] + samples.skip(1) =~= samples);
    }
}

/// Appending rendered text to a readable, newline-terminated cache leaves
/// the old entries untouched and adds exactly the appended ones.
pub proof fn lemma_parse_append(old_bytes: Seq<u8>, add: Seq<u8>, es: Seq<Sample>, fs: Seq<Sample>)
    requires
        spec_parse_cache(old_bytes) == Some(es),
        spec_parse_cache(add) == Some(fs),
        old_bytes.len() == 0 || old_bytes.last() == 10,
    ensures
        spec_parse_cache(old_bytes + add) == Some(es + fs),
    decreases old_bytes.len(),
{
    if old_bytes.len() == 0 {
        assert(old_bytes + add =~= add);
        assert(es + fs =~= fs);
    } else {
        let nl = spec_find(old_bytes, 10);
        lemma_find_props(old_bytes, 10);
        assert(nl < old_bytes.len()) by {
            if nl == old_bytes.len() {
                assert(old_bytes[old_bytes.len() - 1] != 10);
            }
        }
        let line = old_bytes.take(nl);
        let rest = old_bytes.skip(nl + 1);
        let b = old_bytes + add;
        assert(forall|i: int| 0 <= i < nl ==> b[i] != 10);
        assert(b[nl] == 10);
        lemma_find_is(b, 10, nl);
        assert(b.take(nl) =~= line);
        assert(b.skip(nl + 1) =~= rest + add);
        assert(rest.len() == 0 || rest.last() == 10) by {
            if rest.len() > 0 {
                assert(rest.last() == old_bytes.last());
            }
        }
        match spec_parse_line(line) {
            LineParse::Malformed => {
                assert(false);
            },
            LineParse::Skip => {
                assert(spec_parse_cache(rest) == Some(es));
                lemma_parse_append(rest, add, es, fs);
            },
            LineParse::Entry(s) => {
                let es1 = spec_parse_cache(rest)->Some_0;
                assert(es == seq![s] + es1);
                lemma_parse_append(rest, add, es1, fs);
                assert(spec_parse_cache(b) == Some(seq![s] + (es1 + fs)));
                assert(seq![s] + (es1 + fs) =~= es + fs);
            },
        }
    }
}

/// When fresh samples fail to deliver, appending their rendered lines to
/// the existing cache file preserves every prior entry and adds exactly the
/// failed fresh samples, whatever the prior entries were.
pub proof fn lemma_append_gains_exactly_failed(
    old_bytes: Seq<u8>,
    es: Seq<Sample>,
    fresh: Seq<Sample>,
    ok: Seq<bool>,
)
    requires
        spec_parse_cache(old_bytes) == Some(es),
        old_bytes.len() == 0 || old_bytes.last() == 10,
        fresh.len() == ok.len(),
        forall|i: int| 0 <= i < fresh.len() ==> sample_valid(#[trigger] fresh[i]),
    ensures
        spec_parse_cache(old_bytes + spec_render(spec_failed(fresh, ok))) == Some(
            es + spec_failed(fresh, ok),
        ),
{
    lemma_failed_valid(fresh, ok);
    lemma_render_roundtrip(spec_failed(fresh, ok));
    lemma_parse_append(old_bytes, spec_render(spec_failed(fresh, ok)), es, spec_failed(fresh, ok));
}

/// After a replay of the cached entries, rewriting the cache with exactly
/// the entries that failed again makes the file parse to exactly those.
pub proof fn lemma_rewrite_is_exactly_failed(cached: Seq<Sample>, ok: Seq<bool>)
    requires
        cached.len() == ok.len(),
        forall|i: int| 0 <= i < cached.len() ==> sample_valid(#[trigger] cached[i]),
    ensures
        spec_parse_cache(spec_render(spec_failed(cached, ok))) == Some(spec_failed(cached, ok)),
{
    lemma_failed_valid(cached, ok);
    lemma_render_roundtrip(spec_failed(cached, ok));
}

// ---------------------------------------------------------------------------
// Executable pipeline steps
// ---------------------------------------------------------------------------

pub proof fn lemma_render_snoc(pre: Seq<Sample>, x: Sample)
    ensures
        spec_render(pre.push(x)) == spec_render(pre) + spec_entry_chars(x) + seq![10u8],
    decreases pre.len(),
{
    let w = pre.push(x);
    if pre.len() == 0 {
        assert(w[0] == x);
        assert(w.skip(1) =~= Seq::<Sample>::empty());
        assert(spec_render(Seq::<Sample>::empty()) == Seq::<u8>::empty());
        assert(spec_render(w) == spec_entry_chars(x) + seq![10u8] + Seq::<u8>::empty());
        assert(spec_render(w) =~= spec_render(pre) + spec_entry_chars(x) + seq![10u8]);
    } else {
        assert(w[0] == pre[0]);
        assert(w.skip(1) =~= pre.skip(1).push(x));
        lemma_render_snoc(pre.skip(1), x);
        assert(spec_render(w) == spec_entry_chars(pre[0]) + seq![10u8] + (spec_render(pre.skip(1))
            + spec_entry_chars(x) + seq![10u8]));
        assert(spec_render(pre) == spec_entry_chars(pre[0]) + seq![10u8] + spec_render(
            pre.skip(1),
        ));
        assert(spec_render(w) =~= spec_render(pre) + spec_entry_chars(x) + seq![10u8]);
    }
}

/// Renders a list of samples as cache-file text, one line per sample.
pub fn render_entries(samples: &Vec<Sample>) -> (r: Vec<u8>)
    requires
        forall|i: int| 0 <= i < samples@.len() ==> sample_valid(#[trigger] samples@[i]),
    ensures
        r@ == spec_render(samples@),
{
    let mut out: Vec<u8> = Vec::new();
    let n = samples.len();
    for i in 0..n
        invariant
            n == samples@.len(),
            forall|k: int| 0 <= k < samples@.len() ==> sample_valid(#[trigger] samples@[k]),
            out@ == spec_render(samples@.take(i as int)),
    {
        let s = samples[i];
        push_uuid(&mut out, &s.channel);
        out.push(59);
        push_ts(&mut out, &s.stamp);
        out.push(59);
        push_value(&mut out, s.milli);
        out.push(10);
        proof {
            lemma_render_snoc(samples@.take(i as int), samples@[i as int]);
            assert(samples@.take(i as int).push(samples@[i as int]) =~= samples@.take(i as int + 1));
            assert(out@ =~= spec_render(samples@.take(i as int)) + spec_entry_chars(
                samples@[i as int],
            ) + seq![10u8]);
        }
    }
    proof {
        assert(samples@.take(n as int) =~= samples@);
    }
    out
}

/// Parses `bytes[from..to]` as one cache line.
pub fn parse_line(bytes: &Vec<u8>, from: usize, to: usize) -> (r: LineParse)
    requires
        from <= to <= bytes@.len(),
    ensures
        r == spec_parse_line(bytes@.subrange(from as int, to as int)),
{
    let ghost line = bytes@.subrange(from as int, to as int);
    let i = find_byte(bytes, from, to, 59);
    if i == to {
        return LineParse::Skip;
    }
    proof {
        assert(line.skip(i - from + 1) =~= bytes@.subrange(i as int + 1, to as int));
    }
    let j = find_byte(bytes, i + 1, to, 59);
    if j == to {
        return LineParse::Skip;
    }
    proof {
        assert(line.skip(j - from + 1) =~= bytes@.subrange(j as int + 1, to as int));
    }
    let k = find_byte(bytes, j + 1, to, 59);
    if k != to {
        return LineParse::Skip;
    }
    proof {
        assert(line.take(i - from) =~= bytes@.subrange(from as int, i as int));
        assert(line.subrange(i - from + 1, j - from) =~= bytes@.subrange(i as int + 1, j as int));
    }
    let u = parse_uuid(bytes, from, i);
    let t = parse_ts(bytes, i + 1, j);
    let v = parse_value(bytes, j + 1, to);
    proof {
        lemma_parse_value_bound(bytes@.subrange(j as int + 1, to as int));
    }
    match (u, t, v) {
        (Some(channel), Some(stamp), Some(milli)) => LineParse::Entry(
            Sample { channel, stamp, milli },
        ),
        _ => LineParse::Malformed,
    }
}

/// Reads a whole cache file: the samples of its entry lines in order, or
/// nothing when some entry line is unreadable.
pub fn parse_cache(bytes: &Vec<u8>) -> (r: Option<Vec<Sample>>)
    ensures
        r is Some <==> spec_parse_cache(bytes@) is Some,
        r is Some ==> r->0@ == spec_parse_cache(bytes@)->Some_0,
{
    let mut out: Vec<Sample> = Vec::new();
    let mut pos: usize = 0;
    let n = bytes.len();
    proof {
        assert(bytes@.skip(0) =~= bytes@);
        let c = spec_parse_cache(bytes@);
        if c is Some {
            assert(Seq::<Sample>::empty() + c->Some_0 =~= c->Some_0);
        }
    }
    while pos < n
        invariant
            pos <= n == bytes@.len(),
            spec_parse_cache(bytes@) == match spec_parse_cache(bytes@.skip(pos as int)) {
                None => None::<Seq<Sample>>,
                Some(t) => Some(out@ + t),
            },
        decreases n - pos,
    {
        let ghost remaining = bytes@.skip(pos as int);
        proof {
            assert(remaining =~= bytes@.subrange(pos as int, n as int));
        }
        let nl = find_byte(bytes, pos, n, 10);
        proof {
            assert(remaining.take(nl - pos) =~= bytes@.subrange(pos as int, nl as int));
        }
        let lp = parse_line(bytes, pos, nl);
        let next = if nl < n {
            nl + 1
        } else {
            n
        };
        proof {
            if nl < n {
                assert(remaining.skip(nl - pos + 1) =~= bytes@.skip(nl as int + 1));
            } else {
                assert(bytes@.skip(n as int) =~= Seq::<u8>::empty());
            }
        }
        match lp {
            LineParse::Malformed => {
                return None;
            },
            LineParse::Skip => {},
            LineParse::Entry(s) => {
                let ghost out_pre = out@;
                out.push(s);
                proof {
                    let t0 = spec_parse_cache(bytes@.skip(next as int));
                    if t0 is Some {
                        assert(out_pre.push(s) + t0->Some_0 =~= out_pre + (seq![s] + t0->Some_0));
                    }
                }
            },
        }
        pos = next;
    }
    proof {
        assert(bytes@.skip(n as int) =~= Seq::<u8>::empty());
        assert(out@ + Seq::<Sample>::empty() =~= out@);
    }
    Some(out)
}

/// Keeps, in order, exactly the samples whose delivery failed.
pub fn undelivered(samples: &Vec<Sample>, ok: &Vec<bool>) -> (r: Vec<Sample>)
    requires
        samples@.len() == ok@.len(),
    ensures
        r@ == spec_failed(samples@, ok@),
{
    let mut out: Vec<Sample> = Vec::new();
    let n = samples.len();
    for i in 0..n
        invariant
            n == samples@.len() == ok@.len(),
            out@ == spec_failed(samples@.take(i as int), ok@.take(i as int)),
    {
        proof {
            assert(samples@.take(i as int + 1).drop_last() =~= samples@.take(i as int));
            assert(ok@.take(i as int + 1).drop_last() =~= ok@.take(i as int));
        }
        if !ok[i] {
            out.push(samples[i]);
        }
    }
    proof {
        assert(samples@.take(n as int) =~= samples@);
        assert(ok@.take(n as int) =~= ok@);
    }
    out
}

} // verus!
