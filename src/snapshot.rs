//! Decoding of the raw counter records that the instrumentation layer keeps
//! per process: a 4-byte pid key and an 8-byte value holding the received
//! then sent cumulative byte counts, each a 32-bit integer in the machine's
//! byte order.

use vstd::prelude::*;

use crate::tracker::Pid;

verus! {

/// The signed 32-bit integer whose bytes, least significant first, are `b`.
pub open spec fn i32_from_le(b: Seq<u8>) -> int {
    let u = b[0] as int + 256 * (b[1] as int) + 65536 * (b[2] as int) + 16777216 * (b[3] as int);
    if u >= 0x8000_0000 {
        u - 0x1_0000_0000
    } else {
        u
    }
}

/// Whether `v` is what `b` reads as in one of the two byte orders a machine
/// may have.
pub open spec fn native_reading(b: Seq<u8>, v: i32) -> bool {
    v == i32_from_le(b) || v == i32_from_le(b.reverse())
}

/// Relies on `i32::from_ne_bytes`: the integer whose memory representation
/// in the machine's byte order is `b`.
#[verifier::external_body]
fn i32_from_native_bytes(b: &[u8]) -> (r: i32)
    requires
        b@.len() == 4,
    ensures
        native_reading(b@, r),
{
    i32::from_ne_bytes([b[0], b[1], b[2], b[3]])
}

/// A raw record: the key bytes, and the value bytes when the lookup found
/// any.
pub type RawRecord = (Vec<u8>, Option<Vec<u8>>);

/// Whether `rec` has a 4-byte key and an 8-byte value.
pub open spec fn is_well_formed(rec: RawRecord) -> bool {
    &&& rec.0@.len() == 4
    &&& rec.1 is Some
    &&& rec.1->0@.len() == 8
}

/// Whether `e` is what the well-formed record `rec` holds: pid, received,
/// sent.
pub open spec fn decodes_to(rec: RawRecord, e: (Pid, i32, i32)) -> bool {
    &&& native_reading(rec.0@, e.0)
    &&& native_reading(rec.1->0@.subrange(0, 4), e.1)
    &&& native_reading(rec.1->0@.subrange(4, 8), e.2)
}

/// Whether `out` holds, in order, what each well-formed record of `records`
/// holds, the others being skipped.
pub open spec fn is_decoding_of(records: Seq<RawRecord>, out: Seq<(Pid, i32, i32)>) -> bool
    decreases records.len(),
{
    if records.len() == 0 {
        out.len() == 0
    } else if is_well_formed(records.last()) {
        &&& out.len() > 0
        &&& decodes_to(records.last(), out.last())
        &&& is_decoding_of(records.drop_last(), out.drop_last())
    } else {
        is_decoding_of(records.drop_last(), out)
    }
}

/// The `(pid, received, sent)` entry of one raw record, or `None` when its
/// key is not 4 bytes, its value is missing or its value is not 8 bytes.
pub fn decode_record(rec: &RawRecord) -> (r: Option<(Pid, i32, i32)>)
    ensures
        r is Some <==> is_well_formed(*rec),
        r is Some ==> decodes_to(*rec, r->0),
{
    let (key, value) = rec;
    match value {
        Some(v) => {
            if key.len() != 4 || v.len() != 8 {
                return None;
            }
            let pid = i32_from_native_bytes(key.as_slice());
            let received = i32_from_native_bytes(&v.as_slice()[0..4]);
            let sent = i32_from_native_bytes(&v.as_slice()[4..8]);
            Some((pid, received, sent))
        },
        None => None,
    }
}

/// The snapshot that `records` hold: one entry per well-formed record, in
/// order; a missing or malformed record is skipped so that it does not hide
/// the others.
pub fn decode_snapshot(records: &Vec<RawRecord>) -> (r: Vec<(Pid, i32, i32)>)
    ensures
        is_decoding_of(records@, r@),
{
    let mut r: Vec<(Pid, i32, i32)> = Vec::new();
    let mut i: usize = 0;
    while i < records.len()
        invariant
            i <= records@.len(),
            is_decoding_of(records@.subrange(0, i as int), r@),
        decreases records@.len() - i,
    {
        let ghost r0 = r@;
        let decoded = decode_record(&records[i]);
        match decoded {
            Some(e) => {
                r.push(e);
                assert(r@.drop_last() =~= r0);
            },
            None => {},
        }
        assert(records@.subrange(0, i + 1).drop_last() =~= records@.subrange(0, i as int));
        i = i + 1;
    }
    assert(records@.subrange(0, records@.len() as int) =~= records@);
    r
}

} // verus!
