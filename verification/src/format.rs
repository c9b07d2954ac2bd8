//! Sample file layout.
//!
//! A powerbench sample file is a small binary container:
//!
//! ```text
//! magic    8 bytes   b"PBENCH1\n"
//! meta_len u32 LE    length of the JSON metadata that follows
//! meta     meta_len  JSON-encoded [`Meta`]
//! count    u64 LE    number of samples
//! samples  count * 4 current samples in microampere, f32 LE
//! ```
//!
//! The JSON metadata keeps the format extensible without breaking old readers.
//! This module lays out and takes apart the container; turning [`Meta`] into
//! JSON text and back is left to the caller, whose result is handed in.

use vstd::arithmetic::power2::{lemma2_to64, lemma2_to64_rest, lemma_pow2_adds, pow2};
use vstd::prelude::*;
use vstd::string::*;

use crate::arithmetic::{counted, deterministic, quotient, Arithmetic};
use crate::error::Error;
use crate::number::{Double, Single};

verus! {

/// Metadata describing how a recording was made.
#[derive(Debug, Clone)]
pub struct Meta {
    /// Unix timestamp (milliseconds) of when the recording started.
    pub created_unix_ms: u64,
    /// Version of the tool that created the file.
    pub tool_version: String,
    /// Optional user-supplied label describing the recording.
    pub label: Option<String>,
    /// Source voltage in millivolt.
    pub voltage_mv: u16,
    /// Samples per second.
    pub sps: u32,
    /// Seconds waited between enabling power and starting to sample.
    pub settle_secs: Double,
    /// Requested sampling duration in seconds.
    pub duration_secs: Double,
    /// Measurement mode: "source" (PPK2 supplies power) or "ampere" (ammeter).
    pub mode: String,
    /// Whether the PPK2 reported itself as calibrated.
    pub calibrated: bool,
    /// Number of raw ADC samples the device reported as missed during the
    /// capture (detected via counter gaps in the stream). Should be 0.
    pub missed_samples: u64,
}

/// A recording: metadata plus current samples in microampere.
#[derive(Debug, Clone)]
pub struct Recording {
    /// Metadata describing the recording.
    pub meta: Meta,
    /// Current samples in microampere, at `meta.sps` samples per second.
    pub samples_ua: Vec<Single>,
}

/// The first eight bytes of every sample file.
pub open spec fn magic() -> Seq<u8> {
    seq![0x50u8, 0x42, 0x45, 0x4e, 0x43, 0x48, 0x31, 0x0a]
}

/// `x` in `n` bytes, the lowest first.
pub open spec fn le_bytes(x: nat, n: nat) -> Seq<u8>
    decreases n,
{
    if n == 0 {
        Seq::empty()
    } else {
        seq![(x % 256) as u8] + le_bytes(x / 256, (n - 1) as nat)
    }
}

/// The number whose bytes, the lowest first, are `s`.
pub open spec fn le_value(s: Seq<u8>) -> nat
    decreases s.len(),
{
    if s.len() == 0 {
        0
    } else {
        s[0] as nat + 256 * le_value(s.drop_first())
    }
}

/// The bytes of the samples, four each.
pub open spec fn sample_bytes(samples: Seq<Single>) -> Seq<u8>
    decreases samples.len(),
{
    if samples.len() == 0 {
        Seq::empty()
    } else {
        sample_bytes(samples.drop_last()) + le_bytes(samples.last().bits as nat, 4)
    }
}

/// A sample file with the given metadata text and samples.
pub open spec fn encoded(meta: Seq<u8>, samples: Seq<Single>) -> Seq<u8> {
    magic() + le_bytes(meta.len() % 0x1_0000_0000, 4) + meta + le_bytes(samples.len(), 8)
        + sample_bytes(samples)
}

/// The length that a file gives for its metadata.
pub open spec fn meta_len(data: Seq<u8>) -> nat {
    le_value(data.subrange(8, 12))
}

/// The metadata text of a file.
pub open spec fn meta_field(data: Seq<u8>) -> Seq<u8> {
    data.subrange(12, 12 + meta_len(data) as int)
}

/// The number of samples that a file gives.
pub open spec fn count_field(data: Seq<u8>) -> nat {
    le_value(data.subrange(12 + meta_len(data) as int, 20 + meta_len(data) as int))
}

/// The samples of a file.
pub open spec fn samples_field(data: Seq<u8>) -> Seq<Single> {
    let start = 20 + meta_len(data);
    Seq::new(
        count_field(data),
        |i: int| Single { bits: le_value(data.subrange(start + 4 * i, start + 4 * i + 4)) as u32 },
    )
}

/// What can be wrong with a sample file.
pub enum Fault {
    /// The file ends before all that it announces.
    Truncated,
    /// The file does not start with the magic bytes.
    BadMagic,
    /// The metadata is not what it should be; the text says why.
    BadMeta(Seq<char>),
    /// The metadata gives a sample rate of zero.
    ZeroRate,
}

/// What is wrong with a file up to and with its metadata text.
pub open spec fn header_fault(data: Seq<u8>) -> Option<Fault> {
    if data.len() < 8 {
        Some(Fault::Truncated)
    } else if data.take(8) != magic() {
        Some(Fault::BadMagic)
    } else if data.len() < 12 || data.len() < 12 + meta_len(data) {
        Some(Fault::Truncated)
    } else {
        None
    }
}

/// What is wrong with a file whose metadata text was parsed with the result
/// `parsed`.
pub open spec fn file_fault(data: Seq<u8>, parsed: Result<Meta, String>) -> Option<Fault> {
    if header_fault(data) is Some {
        header_fault(data)
    } else {
        match parsed {
            Err(reason) => Some(Fault::BadMeta(reason@)),
            Ok(meta) => if meta.sps == 0 {
                Some(Fault::ZeroRate)
            } else if data.len() < 20 + meta_len(data) || data.len() < 20 + meta_len(data) + 4
                * count_field(data) {
                Some(Fault::Truncated)
            } else {
                None
            },
        }
    }
}

/// Whether `e` reports `fault` in the file at `path`.
pub open spec fn reports(e: Error, fault: Fault, path: Seq<char>) -> bool {
    match fault {
        Fault::Truncated => e matches Error::Io(m) && m@ == "failed to fill whole buffer"@,
        Fault::BadMagic => e matches Error::InvalidFile(m) && m@ == path
            + ": bad magic, not a powerbench sample file"@,
        Fault::BadMeta(reason) => e matches Error::InvalidFile(m) && m@ == path
            + ": bad metadata: "@ + reason,
        Fault::ZeroRate => e matches Error::InvalidFile(m) && m@ == path
            + ": metadata has sps = 0"@,
    }
}

/// The error of a file that ends too early.
fn truncated() -> (r: Error)
    ensures
        forall|path: Seq<char>| #[trigger] reports(r, Fault::Truncated, path),
{
    Error::Io("failed to fill whole buffer".to_owned())
}

/// The error of a file that is not what it should be.
fn invalid(path: &str, reason: &str) -> (r: Error)
    ensures
        r matches Error::InvalidFile(m) && m@ == path@ + reason@,
{
    let mut m = path.to_owned();
    m.append(reason);
    Error::InvalidFile(m)
}

/// Appends `x` in `n` bytes, the lowest first.
fn push_le(out: &mut Vec<u8>, x: u64, n: usize)
    ensures
        final(out)@ == old(out)@ + le_bytes(x as nat, n as nat),
    decreases n,
{
    if n == 0 {
        assert(out@ =~= old(out)@ + le_bytes(x as nat, 0));
    } else {
        out.push((x % 256) as u8);
        push_le(out, x / 256, n - 1);
        assert(out@ =~= old(out)@ + le_bytes(x as nat, n as nat));
    }
}

/// The value of fewer than nine bytes fits in 64 bits.
proof fn lemma_le_bound(s: Seq<u8>)
    ensures
        le_value(s) < pow2(8 * s.len()),
    decreases s.len(),
{
    lemma2_to64();
    if s.len() > 0 {
        lemma_le_bound(s.drop_first());
        lemma_pow2_adds(8, (8 * (s.len() - 1)) as nat);
    }
}

/// The number whose bytes, the lowest first, stand from `at` to `end`.
fn read_le(data: &[u8], at: usize, end: usize) -> (r: u64)
    requires
        at <= end <= data.len(),
        end - at <= 8,
    ensures
        r == le_value(data@.subrange(at as int, end as int)),
    decreases end - at,
{
    let ghost s = data@.subrange(at as int, end as int);
    proof {
        lemma_le_bound(s);
        lemma2_to64();
        lemma2_to64_rest();
        if s.len() < 8 {
            vstd::arithmetic::power2::lemma_pow2_strictly_increases(8 * s.len(), 64);
        }
    }
    if at == end {
        0
    } else {
        assert(s.drop_first() =~= data@.subrange(at + 1, end as int));
        let rest: u64 = read_le(data, at + 1, end);
        data[at] as u64 + 256 * rest
    }
}

/// Whether the file starts with the magic bytes.
fn has_magic(data: &[u8]) -> (r: bool)
    requires
        data.len() >= 8,
    ensures
        r == (data@.take(8) == magic()),
{
    let r = data[0] == 0x50 && data[1] == 0x42 && data[2] == 0x45 && data[3] == 0x4e && data[4]
        == 0x43 && data[5] == 0x48 && data[6] == 0x31 && data[7] == 0x0a;
    proof {
        let m = magic();
        let d = data@.take(8);
        if r {
            assert(d =~= m);
        } else {
            assert(d[0] == data@[0] && d[1] == data@[1] && d[2] == data@[2] && d[3] == data@[3]
                && d[4] == data@[4] && d[5] == data@[5] && d[6] == data@[6] && d[7] == data@[7]);
            assert(m[0] == 0x50 && m[1] == 0x42 && m[2] == 0x45 && m[3] == 0x4e && m[4] == 0x43
                && m[5] == 0x48 && m[6] == 0x31 && m[7] == 0x0a);
        }
    }
    r
}

/// Checks the start of a file and gives the end of its metadata text.
fn read_header(data: &[u8], path: &str) -> (r: Result<usize, Error>)
    ensures
        match r {
            Ok(end) => header_fault(data@) is None && end == 12 + meta_len(data@) && end
                <= data.len(),
            Err(e) => header_fault(data@) matches Some(fault) && reports(e, fault, path@),
        },
{
    if data.len() < 8 {
        return Err(truncated());
    }
    if !has_magic(data) {
        return Err(invalid(path, ": bad magic, not a powerbench sample file"));
    }
    if data.len() < 12 {
        return Err(truncated());
    }
    let len: u64 = read_le(data, 8, 12);
    if ((data.len() - 12) as u64) < len {
        return Err(truncated());
    }
    Ok(12 + len as usize)
}

/// The metadata text of the file with the contents `data`.
pub fn metadata_text(data: &[u8], path: &str) -> (r: Result<Vec<u8>, Error>)
    ensures
        match r {
            Ok(text) => header_fault(data@) is None && text@ == meta_field(data@),
            Err(e) => header_fault(data@) matches Some(fault) && reports(e, fault, path@),
        },
{
    match read_header(data, path) {
        Ok(end) => Ok(vstd::slice::slice_to_vec(vstd::slice::slice_subrange(data, 12, end))),
        Err(e) => Err(e),
    }
}

impl Recording {
    /// Duration covered by the samples, in seconds.
    pub fn duration_secs<A: Arithmetic>(&self, f: &A) -> (r: Double)
        ensures
            deterministic(f) ==> r == quotient(
                f,
                counted(f, self.samples_ua@.len() as int),
                counted(f, self.meta.sps as int),
            ),
    {
        f.over(f.of_count(self.samples_ua.len() as u128), f.of_count(self.meta.sps as u128))
    }

    /// The file that holds the recording, given its metadata as JSON text, or
    /// why there is none.
    pub fn save(&self, meta_json: Result<Vec<u8>, String>) -> (r: Result<Vec<u8>, Error>)
        ensures
            match meta_json {
                Ok(meta) => r matches Ok(file) && file@ == encoded(meta@, self.samples_ua@),
                Err(reason) => r matches Err(Error::InvalidFile(m)) && m@
                    == "metadata encoding failed: "@ + reason@,
            },
    {
        let meta = match meta_json {
            Ok(meta) => meta,
            Err(reason) => {
                return Err(invalid("metadata encoding failed: ", reason.as_str()));
            },
        };
        let mut out: Vec<u8> = vec![0x50, 0x42, 0x45, 0x4e, 0x43, 0x48, 0x31, 0x0a];
        assert(out@ =~= magic());
        push_le(&mut out, meta.len() as u64 % 0x1_0000_0000, 4);
        let ghost start = out@;
        out.extend_from_slice(meta.as_slice());
        assert(out@ =~= start + meta@);
        push_le(&mut out, self.samples_ua.len() as u64, 8);
        let ghost prefix = out@;
        let mut i: usize = 0;
        assert(self.samples_ua@.take(0) =~= Seq::<Single>::empty());
        while i < self.samples_ua.len()
            invariant
                i <= self.samples_ua.len(),
                out@ =~= prefix + sample_bytes(self.samples_ua@.take(i as int)),
            decreases self.samples_ua.len() - i,
        {
            assert(self.samples_ua@.take(i + 1).drop_last() =~= self.samples_ua@.take(i as int));
            push_le(&mut out, self.samples_ua[i].bits as u64, 4);
            i += 1;
        }
        assert(self.samples_ua@.take(i as int) =~= self.samples_ua@);
        assert(out@ =~= encoded(meta@, self.samples_ua@));
        Ok(out)
    }

    /// The recording in a file with the contents `data`; `parsed` is what
    /// parsing its metadata text gave, or why it failed.
    pub fn load(data: &[u8], path: &str, parsed: Result<Meta, String>) -> (r: Result<Self, Error>)
        ensures
            match r {
                Ok(rec) => file_fault(data@, parsed) is None && parsed == Ok::<Meta, String>(
                    rec.meta,
                ) && rec.samples_ua@ == samples_field(data@),
                Err(e) => file_fault(data@, parsed) matches Some(fault) && reports(e, fault, path@),
            },
    {
        let at: usize = match read_header(data, path) {
            Ok(end) => end,
            Err(e) => {
                return Err(e);
            },
        };
        let meta = match parsed {
            Ok(meta) => meta,
            Err(reason) => {
                let mut m = ": bad metadata: ".to_owned();
                m.append(reason.as_str());
                let e = invalid(path, m.as_str());
                assert(path@ + (": bad metadata: "@ + reason@) =~= path@ + ": bad metadata: "@
                    + reason@);
                return Err(e);
            },
        };
        if meta.sps == 0 {
            return Err(invalid(path, ": metadata has sps = 0"));
        }
        if data.len() - at < 8 {
            return Err(truncated());
        }
        let count: u64 = read_le(data, at, at + 8);
        let start: usize = at + 8;
        if ((data.len() - start) as u128) < 4 * (count as u128) {
            return Err(truncated());
        }
        let mut samples_ua: Vec<Single> = Vec::new();
        let mut i: usize = 0;
        while (i as u64) < count
            invariant
                i <= count,
                start == 20 + meta_len(data@),
                start + 4 * count <= data.len(),
                count == count_field(data@),
                samples_ua@ == samples_field(data@).take(i as int),
            decreases count - i,
        {
            let at: usize = start + 4 * i;
            let bits: u64 = read_le(data, at, at + 4);
            proof {
                lemma_le_bound(data@.subrange(at as int, at + 4));
                lemma2_to64();
            }
            samples_ua.push(Single { bits: bits as u32 });
            i += 1;
            assert(samples_ua@ =~= samples_field(data@).take(i as int));
        }
        assert(samples_ua@ =~= samples_field(data@));
        Ok(Recording { meta, samples_ua })
    }
}

/// Lengths and values of numbers in bytes.
proof fn lemma_le_roundtrip(x: nat, n: nat)
    requires
        x < pow2(8 * n),
    ensures
        le_bytes(x, n).len() == n,
        le_value(le_bytes(x, n)) == x,
    decreases n,
{
    lemma2_to64();
    if n > 0 {
        lemma_pow2_adds(8, (8 * (n - 1)) as nat);
        lemma_le_roundtrip(x / 256, (n - 1) as nat);
        assert(le_bytes(x, n).drop_first() =~= le_bytes(x / 256, (n - 1) as nat));
    }
}

/// Each sample has its four bytes at its place.
proof fn lemma_sample_bytes(samples: Seq<Single>)
    ensures
        sample_bytes(samples).len() == 4 * samples.len(),
        forall|i: int|
            0 <= i < samples.len() ==> #[trigger] sample_bytes(samples).subrange(4 * i, 4 * i + 4)
                == le_bytes(samples[i].bits as nat, 4),
    decreases samples.len(),
{
    lemma2_to64();
    if samples.len() > 0 {
        let front = samples.drop_last();
        lemma_sample_bytes(front);
        lemma_le_roundtrip(samples.last().bits as nat, 4);
        assert forall|i: int| 0 <= i < samples.len() implies #[trigger] sample_bytes(
            samples,
        ).subrange(4 * i, 4 * i + 4) == le_bytes(samples[i].bits as nat, 4) by {
            if i < front.len() {
                assert(sample_bytes(samples).subrange(4 * i, 4 * i + 4) =~= sample_bytes(
                    front,
                ).subrange(4 * i, 4 * i + 4));
            } else {
                assert(sample_bytes(samples).subrange(4 * i, 4 * i + 4) =~= le_bytes(
                    samples[i].bits as nat,
                    4,
                ));
            }
        }
    }
}

/// Where the parts of a saved file stand.
pub(crate) proof fn lemma_encoded_layout(meta: Seq<u8>, samples: Seq<Single>, rest: Seq<u8>)
    requires
        meta.len() < 0x1_0000_0000,
        samples.len() <= u64::MAX,
    ensures
        encoded(meta, samples).len() == 20 + meta.len() + 4 * samples.len(),
        (encoded(meta, samples) + rest).take(8) == magic(),
        meta_len(encoded(meta, samples) + rest) == meta.len(),
        meta_field(encoded(meta, samples) + rest) == meta,
        count_field(encoded(meta, samples) + rest) == samples.len(),
        samples_field(encoded(meta, samples) + rest) == samples,
{
    lemma2_to64();
    lemma2_to64_rest();
    lemma_le_roundtrip(meta.len(), 4);
    lemma_le_roundtrip(samples.len(), 8);
    lemma_sample_bytes(samples);
    let data = encoded(meta, samples) + rest;
    let m = meta.len() as int;
    assert(data.take(8) =~= magic());
    assert(data.subrange(8, 12) =~= le_bytes(meta.len(), 4));
    assert(meta_len(data) == meta.len());
    assert(data.subrange(12, 12 + m) =~= meta);
    assert(data.subrange(12 + m, 20 + m) =~= le_bytes(samples.len(), 8));
    assert(samples_field(data).len() == samples.len());
    assert forall|i: int| 0 <= i < samples.len() implies samples_field(data)[i] == samples[i] by {
        let at = 20 + m + 4 * i;
        assert(data.subrange(at, at + 4) =~= sample_bytes(samples).subrange(4 * i, 4 * i + 4));
        lemma_le_roundtrip(samples[i].bits as nat, 4);
    }
    assert(samples_field(data) =~= samples);
}

/// What is saved is loaded again: from a saved file, whatever follows it, the
/// metadata text and the samples come back as they went in. The length of the
/// metadata text has to fit the 32 bits that the file has for it.
pub proof fn law_saved_file_loads(
    meta: Seq<u8>,
    samples: Seq<Single>,
    rest: Seq<u8>,
    parsed: Meta,
)
    requires
        meta.len() < 0x1_0000_0000,
        samples.len() <= usize::MAX,
        parsed.sps != 0,
    ensures
        header_fault(encoded(meta, samples) + rest) is None,
        meta_field(encoded(meta, samples) + rest) == meta,
        file_fault(encoded(meta, samples) + rest, Ok(parsed)) is None,
        samples_field(encoded(meta, samples) + rest) == samples,
{
    lemma_encoded_layout(meta, samples, rest);
}

/// A saved file that was cut short anywhere is reported as truncated.
pub proof fn law_truncated_file_is_rejected(
    meta: Seq<u8>,
    samples: Seq<Single>,
    kept: int,
    parsed: Meta,
)
    requires
        meta.len() < 0x1_0000_0000,
        samples.len() <= usize::MAX,
        parsed.sps != 0,
        0 <= kept < encoded(meta, samples).len(),
    ensures
        file_fault(encoded(meta, samples).take(kept), Ok(parsed)) == Some(Fault::Truncated),
{
    let whole = encoded(meta, samples);
    lemma_encoded_layout(meta, samples, Seq::empty());
    assert(whole + Seq::empty() =~= whole);
    let data = whole.take(kept);
    if kept >= 8 {
        assert(data.take(8) =~= whole.take(8));
    }
    if kept >= 12 {
        assert(data.subrange(8, 12) =~= whole.subrange(8, 12));
    }
    let m = meta.len() as int;
    if kept >= 20 + m {
        assert(data.subrange(12 + m, 20 + m) =~= whole.subrange(12 + m, 20 + m));
    }
}

} // verus!
