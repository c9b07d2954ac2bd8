//! What a sample file holds, told byte by byte.

use vstd::prelude::*;

use crate::error::Error;
use crate::format::{
    count_field, encoded, file_fault, le_value, lemma_encoded_layout, magic, meta_field, meta_len,
    samples_field, Meta, Recording,
};
use crate::number::Single;

verus! {

/// What four bytes stand for, the lowest first.
pub open spec fn four_bytes(data: Seq<u8>, at: int) -> int {
    data[at] + 0x100 * data[at + 1] + 0x1_0000 * data[at + 2] + 0x100_0000 * data[at + 3]
}

/// What eight bytes stand for, the lowest first.
pub open spec fn eight_bytes(data: Seq<u8>, at: int) -> int {
    four_bytes(data, at) + 0x1_0000_0000 * four_bytes(data, at + 4)
}

/// Whether a file begins with the eight characters of a sample file, the last of
/// them a line feed.
pub open spec fn begins_as_sample_file(data: Seq<u8>) -> bool {
    &&& data.len() >= 8
    &&& data[0] == 'P' as u8 && data[1] == 'B' as u8 && data[2] == 'E' as u8 && data[3] == 'N' as u8
    &&& data[4] == 'C' as u8 && data[5] == 'H' as u8 && data[6] == '1' as u8 && data[7] == 10
}

/// Whether a file holds the metadata text and the samples: its first characters,
/// the length of the text in four bytes, the text, the number of samples in eight
/// bytes, and each sample in four bytes.
pub open spec fn is_file_of(data: Seq<u8>, meta: Seq<u8>, samples: Seq<Single>) -> bool {
    let m = meta.len() as int;
    &&& begins_as_sample_file(data)
    &&& data.len() >= 20 + m + 4 * samples.len()
    &&& four_bytes(data, 8) == m
    &&& data.subrange(12, 12 + m) == meta
    &&& eight_bytes(data, 12 + m) == samples.len()
    &&& forall|i: int|
        0 <= i < samples.len() ==> four_bytes(data, 20 + m + 4 * i) == (#[trigger] samples[i]).bits
}

/// What four bytes stand for is what their bytes give.
proof fn lemma_four_bytes(data: Seq<u8>, at: int)
    requires
        0 <= at,
        at + 4 <= data.len(),
    ensures
        le_value(data.subrange(at, at + 4)) == four_bytes(data, at),
{
    let a = data.subrange(at, at + 4);
    let b = a.drop_first();
    let c = b.drop_first();
    let d = c.drop_first();
    let e = d.drop_first();
    assert(e.len() == 0);
    assert(le_value(e) == 0);
    assert(le_value(d) == d[0] as nat + 256 * le_value(e));
    assert(le_value(c) == c[0] as nat + 256 * le_value(d));
    assert(le_value(b) == b[0] as nat + 256 * le_value(c));
    assert(le_value(a) == a[0] as nat + 256 * le_value(b));
}

/// What eight bytes stand for is what their bytes give.
proof fn lemma_eight_bytes(data: Seq<u8>, at: int)
    requires
        0 <= at,
        at + 8 <= data.len(),
    ensures
        le_value(data.subrange(at, at + 8)) == eight_bytes(data, at),
{
    let a = data.subrange(at, at + 8);
    let b = a.drop_first();
    let c = b.drop_first();
    let d = c.drop_first();
    let e = d.drop_first();
    assert(e =~= data.subrange(at + 4, at + 8));
    lemma_four_bytes(data, at + 4);
    assert(le_value(d) == d[0] as nat + 256 * le_value(e));
    assert(le_value(c) == c[0] as nat + 256 * le_value(d));
    assert(le_value(b) == b[0] as nat + 256 * le_value(c));
    assert(le_value(a) == a[0] as nat + 256 * le_value(b));
}

/// A saved recording is a file of its metadata text and its samples, and nothing
/// else. The length of the text has to fit the 32 bits that the file has for it.
pub proof fn law_saved_file_holds_the_recording(rec: &Recording, meta: Vec<u8>, file: Vec<u8>)
    requires
        meta@.len() < 0x1_0000_0000,
        call_ensures(Recording::save, (rec, Ok(meta)), Ok(file)),
    ensures
        is_file_of(file@, meta@, rec.samples_ua@),
        file@.len() == 20 + meta@.len() + 4 * rec.samples_ua@.len(),
{
    let samples = rec.samples_ua@;
    let data = file@;
    let m = meta@.len() as int;
    assert(samples.len() == rec.samples_ua.len());
    lemma_encoded_layout(meta@, samples, Seq::empty());
    assert(encoded(meta@, samples) + Seq::empty() =~= data);
    assert(data.take(8)[0] == 0x50 && data.take(8)[1] == 0x42 && data.take(8)[2] == 0x45
        && data.take(8)[3] == 0x4e && data.take(8)[4] == 0x43 && data.take(8)[5] == 0x48
        && data.take(8)[6] == 0x31 && data.take(8)[7] == 0x0a);
    lemma_four_bytes(data, 8);
    lemma_eight_bytes(data, 12 + m);
    assert forall|i: int| 0 <= i < samples.len() implies four_bytes(data, 20 + m + 4 * i) == (
    #[trigger] samples[i]).bits by {
        lemma_four_bytes(data, 20 + m + 4 * i);
        lemma_four_bytes_fit(data, 20 + m + 4 * i);
        assert(samples_field(data)[i] == samples[i]);
    }
}

/// Four bytes stand for a number below two to the power 32.
proof fn lemma_four_bytes_fit(data: Seq<u8>, at: int)
    requires
        0 <= at,
        at + 4 <= data.len(),
    ensures
        0 <= four_bytes(data, at) <= 0xffff_ffff,
{
}

/// A file that loads is a file of some metadata text, of which the given metadata
/// was read, and of the samples that come out. A file that does not load is not a
/// file of any text and samples, unless its metadata cannot be read or gives a
/// rate of zero.
pub proof fn law_loaded_file_holds_the_recording(
    data: &[u8],
    path: &str,
    parsed: Result<Meta, String>,
    r: Result<Recording, Error>,
)
    requires
        call_ensures(Recording::load, (data, path, parsed), r),
    ensures
        r matches Ok(rec) ==> {
            &&& parsed == Ok::<Meta, String>(rec.meta)
            &&& rec.meta.sps != 0
            &&& data@.len() >= 12
            &&& exists|meta: Seq<u8>| #[trigger] is_file_of(data@, meta, rec.samples_ua@)
        },
        r is Err && (parsed matches Ok(meta) && meta.sps != 0) ==> forall|
            meta: Seq<u8>,
            samples: Seq<Single>,
        |
            !#[trigger] is_file_of(data@, meta, samples),
{
    let d = data@;
    if d.len() >= 12 {
        lemma_four_bytes(d, 8);
        let m = meta_len(d) as int;
        if d.len() >= 20 + m {
            lemma_eight_bytes(d, 12 + m);
        }
    }
    if r is Ok {
        let rec = r->Ok_0;
        let m = meta_len(d) as int;
        let meta = meta_field(d);
        lemma_magic(d);
        assert forall|i: int| 0 <= i < rec.samples_ua@.len() implies four_bytes(
            d,
            20 + m + 4 * i,
        ) == (#[trigger] rec.samples_ua@[i]).bits by {
            lemma_four_bytes(d, 20 + m + 4 * i);
            lemma_four_bytes_fit(d, 20 + m + 4 * i);
        }
        assert(is_file_of(d, meta, rec.samples_ua@));
    } else if parsed matches Ok(meta) && meta.sps != 0 {
        assert forall|meta: Seq<u8>, samples: Seq<Single>| !#[trigger] is_file_of(
            d,
            meta,
            samples,
        ) by {
            if is_file_of(d, meta, samples) {
                lemma_magic(d);
                assert(meta_len(d) == meta.len());
                assert(count_field(d) == samples.len());
                assert(file_fault(d, parsed) is None);
            }
        }
    }
}

/// The first characters of a sample file.
proof fn lemma_magic(data: Seq<u8>)
    requires
        data.len() >= 8,
    ensures
        data.take(8) == magic() <==> begins_as_sample_file(data),
{
    if begins_as_sample_file(data) {
        assert(data.take(8) =~= magic());
    }
    if data.take(8) == magic() {
        assert(magic()[0] == 0x50 && magic()[1] == 0x42 && magic()[2] == 0x45 && magic()[3] == 0x4e
            && magic()[4] == 0x43 && magic()[5] == 0x48 && magic()[6] == 0x31 && magic()[7]
            == 0x0a);
        assert(data.take(8)[0] == data[0] && data.take(8)[1] == data[1] && data.take(8)[2]
            == data[2] && data.take(8)[3] == data[3] && data.take(8)[4] == data[4]
            && data.take(8)[5] == data[5] && data.take(8)[6] == data[6] && data.take(8)[7]
            == data[7]);
    }
}

} // verus!
