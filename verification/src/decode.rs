//! Decoder: validates a raw byte buffer and parses it into a file header
//! plus one outcome per record slot. File-level problems (short buffer, bad
//! magic) abort the whole decode; per-record problems (out-of-range FLARM
//! id, bad UTF-8 in a text field) are isolated to their slot, so every slot
//! yields exactly one outcome in on-disk order.

use vstd::prelude::*;

verus! {

use vstd::bytes::{spec_u32_from_le_bytes, u32_from_le_bytes};
use vstd::slice::{slice_index_get, slice_subrange};
use vstd::utf8::{decode_utf8, valid_utf8};
use crate::Record;
use crate::consts::{
    AIRFIELD_OFFSET, CALL_SIGN_OFFSET, HEADER_SIZE, MAX_FLARM_ID, PILOT_NAME_OFFSET,
    PLANE_TYPE_OFFSET, RECORD_SIZE, REGISTRATION_OFFSET, STRING_FIELD_SIZE, spec_count_of,
    spec_expected_size, spec_magic, spec_record_offset, spec_record_slot, spec_version_of,
};
use crate::text::{
    bytes_to_string, format_flarm_id, format_frequency, lemma_zero_prefix_len, spec_freq_bytes,
    spec_hex6, spec_zero_prefix_len,
};

/// Why a buffer, or one record slot in it, could not be decoded.
#[derive(Debug, PartialEq)]
pub enum DecodeError {
    /// The buffer ends before the header, or before the bytes its header
    /// declares.
    UnexpectedEof,
    /// The first four bytes are not the TDB signature; carries the bytes
    /// actually seen.
    InvalidMagic([u8; 4]),
    /// A record slot holds a FLARM id above 24 bits; carries the raw value.
    InvalidFlarmId(u32),
    /// A text field of a record slot is not valid UTF-8; names the field
    /// and its byte offset within the record.
    InvalidUtf8 { field: &'static str, offset: usize },
}

/// A decoded database: the version tag and one outcome per record slot.
#[derive(Debug)]
pub struct DecodedFile {
    pub version: u32,
    pub records: Vec<Result<Record, DecodeError>>,
}

/// The raw 32-bit FLARM id stored in record bytes `rb`.
pub open spec fn spec_rec_id(rb: Seq<u8>) -> u32 {
    spec_u32_from_le_bytes(rb.subrange(0, 4))
}

/// The stored 32-bit frequency (thousandths of MHz) in record bytes `rb`.
pub open spec fn spec_rec_freq(rb: Seq<u8>) -> u32 {
    spec_u32_from_le_bytes(rb.subrange(4, 8))
}

/// The usable content of the 16-byte text field at `off`: the bytes before
/// the first zero, or the whole field when no byte is zero.
pub open spec fn spec_field_content(rb: Seq<u8>, off: int) -> Seq<u8> {
    let fb = rb.subrange(off, off + STRING_FIELD_SIZE as int);
    fb.subrange(0, spec_zero_prefix_len(fb))
}

/// True when the text field at `off` holds valid UTF-8.
pub open spec fn spec_field_ok(rb: Seq<u8>, off: int) -> bool {
    valid_utf8(spec_field_content(rb, off))
}

/// True when record bytes `rb` decode to a record: the id fits in 24 bits
/// and all five text fields are valid UTF-8.
pub open spec fn spec_rec_ok(rb: Seq<u8>) -> bool {
    &&& spec_rec_id(rb) <= MAX_FLARM_ID
    &&& spec_field_ok(rb, CALL_SIGN_OFFSET as int)
    &&& spec_field_ok(rb, PILOT_NAME_OFFSET as int)
    &&& spec_field_ok(rb, AIRFIELD_OFFSET as int)
    &&& spec_field_ok(rb, PLANE_TYPE_OFFSET as int)
    &&& spec_field_ok(rb, REGISTRATION_OFFSET as int)
}

/// True when `e` is the invalid-UTF-8 error naming the field called `name`
/// at offset `off`.
pub open spec fn spec_is_utf8_error(e: DecodeError, name: Seq<char>, off: int) -> bool {
    e matches DecodeError::InvalidUtf8 { field, offset } && field@ == name && offset == off
}

/// True when `e` is the error decode reports for record bytes `rb`: the
/// first problem in field order, the id checked before the text fields.
pub open spec fn spec_rec_error_matches(rb: Seq<u8>, e: DecodeError) -> bool {
    if spec_rec_id(rb) > MAX_FLARM_ID {
        e matches DecodeError::InvalidFlarmId(v) && v == spec_rec_id(rb)
    } else if !spec_field_ok(rb, CALL_SIGN_OFFSET as int) {
        spec_is_utf8_error(e, "call_sign"@, CALL_SIGN_OFFSET as int)
    } else if !spec_field_ok(rb, PILOT_NAME_OFFSET as int) {
        spec_is_utf8_error(e, "pilot_name"@, PILOT_NAME_OFFSET as int)
    } else if !spec_field_ok(rb, AIRFIELD_OFFSET as int) {
        spec_is_utf8_error(e, "airfield"@, AIRFIELD_OFFSET as int)
    } else if !spec_field_ok(rb, PLANE_TYPE_OFFSET as int) {
        spec_is_utf8_error(e, "plane_type"@, PLANE_TYPE_OFFSET as int)
    } else if !spec_field_ok(rb, REGISTRATION_OFFSET as int) {
        spec_is_utf8_error(e, "registration"@, REGISTRATION_OFFSET as int)
    } else {
        false
    }
}

/// True when `r` is exactly the record spelled by record bytes `rb`: the id
/// in its canonical six-digit hex form, the frequency in its canonical
/// text form, and each text field the UTF-8 reading of its stored content.
pub open spec fn spec_record_matches(r: Record, rb: Seq<u8>) -> bool {
    &&& r.flarm_id@ == decode_utf8(spec_hex6(spec_rec_id(rb)))
    &&& r.frequency@ == decode_utf8(spec_freq_bytes(spec_rec_freq(rb)))
    &&& r.call_sign@ == decode_utf8(spec_field_content(rb, CALL_SIGN_OFFSET as int))
    &&& r.pilot_name@ == decode_utf8(spec_field_content(rb, PILOT_NAME_OFFSET as int))
    &&& r.airfield@ == decode_utf8(spec_field_content(rb, AIRFIELD_OFFSET as int))
    &&& r.plane_type@ == decode_utf8(spec_field_content(rb, PLANE_TYPE_OFFSET as int))
    &&& r.registration@ == decode_utf8(spec_field_content(rb, REGISTRATION_OFFSET as int))
}

/// True when the slot outcome `res` is what record bytes `rb` decode to.
pub open spec fn spec_outcome_matches(res: Result<Record, DecodeError>, rb: Seq<u8>) -> bool {
    match res {
        Ok(r) => spec_rec_ok(rb) && spec_record_matches(r, rb),
        Err(e) => !spec_rec_ok(rb) && spec_rec_error_matches(rb, e),
    }
}

/// True when the whole buffer decodes: a complete header, the signature,
/// and enough bytes for the declared record count.
pub open spec fn spec_decode_ok(data: Seq<u8>) -> bool {
    &&& data.len() >= HEADER_SIZE as int
    &&& data.subrange(0, 4) == spec_magic()
    &&& data.len() >= spec_expected_size(spec_count_of(data) as int)
}

/// Index of the first zero byte in the 16-byte field at `offset`, relative
/// to the field's start, or 16 when no byte there is zero.
fn zero_scan(data: &[u8], offset: usize) -> (end: usize)
    requires
        data@.len() == RECORD_SIZE,
        offset + STRING_FIELD_SIZE <= RECORD_SIZE,
    ensures
        end <= STRING_FIELD_SIZE,
        end == spec_zero_prefix_len(
            data@.subrange(offset as int, offset + STRING_FIELD_SIZE as int),
        ),
{
    let ghost fb = data@.subrange(offset as int, offset + STRING_FIELD_SIZE as int);
    let mut end: usize = 0;
    while end < STRING_FIELD_SIZE
        invariant
            data@.len() == RECORD_SIZE,
            offset + STRING_FIELD_SIZE <= RECORD_SIZE,
            0 <= end <= STRING_FIELD_SIZE,
            fb == data@.subrange(offset as int, offset + STRING_FIELD_SIZE as int),
            forall|j: int| 0 <= j < end ==> #[trigger] fb[j] != 0,
        decreases STRING_FIELD_SIZE - end,
    {
        let b = *slice_index_get(data, offset + end);
        proof {
            assert(fb[end as int] == data@[offset + end]);
        }
        if b == 0 {
            proof {
                lemma_zero_prefix_len(fb, end as int);
            }
            return end;
        }
        end = end + 1;
    }
    proof {
        lemma_zero_prefix_len(fb, STRING_FIELD_SIZE as int);
    }
    end
}

/// Reads one text field: the bytes at `offset` up to the first zero byte
/// (or the field's end), interpreted as UTF-8.
pub fn decode_string(data: &[u8], offset: usize, field: &'static str) -> (r: Result<
    String,
    DecodeError,
>)
    requires
        data@.len() == RECORD_SIZE,
        offset + STRING_FIELD_SIZE <= RECORD_SIZE,
    ensures
        match r {
            Ok(s) => spec_field_ok(data@, offset as int) && s@ == decode_utf8(
                spec_field_content(data@, offset as int),
            ),
            Err(e) => !spec_field_ok(data@, offset as int) && (e matches DecodeError::InvalidUtf8 {
                field: f,
                offset: o,
            } && f == field && o == offset),
        },
{
    let end = zero_scan(data, offset);
    let content = slice_subrange(data, offset, offset + end);
    proof {
        assert(content@ =~= spec_field_content(data@, offset as int));
    }
    match bytes_to_string(content) {
        Some(s) => {
            proof {
                vstd::utf8::encode_utf8_decode_utf8(s@);
            }
            Ok(s)
        },
        None => Err(DecodeError::InvalidUtf8 { field, offset }),
    }
}

/// Decodes one 96-byte record slot: the FLARM id (rejected above 24 bits),
/// the frequency, then the five text fields in on-disk order. The first
/// problem found becomes the slot's outcome.
pub fn decode_record(data: &[u8]) -> (r: Result<Record, DecodeError>)
    requires
        data@.len() == RECORD_SIZE,
    ensures
        spec_outcome_matches(r, data@),
{
    let flarm_id_raw = u32_from_le_bytes(slice_subrange(data, 0, 4));
    if flarm_id_raw > MAX_FLARM_ID {
        return Err(DecodeError::InvalidFlarmId(flarm_id_raw));
    }
    let flarm_id = format_flarm_id(flarm_id_raw);

    let frequency_raw = u32_from_le_bytes(slice_subrange(data, 4, 8));
    let frequency = format_frequency(frequency_raw);

    let call_sign = match decode_string(data, CALL_SIGN_OFFSET, "call_sign") {
        Ok(s) => s,
        Err(e) => { return Err(e) },
    };
    let pilot_name = match decode_string(data, PILOT_NAME_OFFSET, "pilot_name") {
        Ok(s) => s,
        Err(e) => { return Err(e) },
    };
    let airfield = match decode_string(data, AIRFIELD_OFFSET, "airfield") {
        Ok(s) => s,
        Err(e) => { return Err(e) },
    };
    let plane_type = match decode_string(data, PLANE_TYPE_OFFSET, "plane_type") {
        Ok(s) => s,
        Err(e) => { return Err(e) },
    };
    let registration = match decode_string(data, REGISTRATION_OFFSET, "registration") {
        Ok(s) => s,
        Err(e) => { return Err(e) },
    };

    Ok(Record { flarm_id, pilot_name, airfield, plane_type, registration, call_sign, frequency })
}

/// Decodes a whole buffer: checks the header and total size, then decodes
/// each declared record slot independently, keeping on-disk order.
pub fn decode_file(data: &[u8]) -> (r: Result<DecodedFile, DecodeError>)
    ensures
        match r {
            Ok(df) => {
                &&& spec_decode_ok(data@)
                &&& df.version == spec_version_of(data@)
                &&& df.records@.len() == spec_count_of(data@)
                &&& forall|i: int|
                    0 <= i < spec_count_of(data@) ==> spec_outcome_matches(
                        #[trigger] df.records@[i],
                        spec_record_slot(data@, spec_count_of(data@) as int, i),
                    )
            },
            Err(e) => !spec_decode_ok(data@) && match e {
                DecodeError::UnexpectedEof => data@.len() < HEADER_SIZE as int || (data@.subrange(
                    0,
                    4,
                ) == spec_magic() && data@.len() < spec_expected_size(spec_count_of(data@) as int)),
                DecodeError::InvalidMagic(m) => data@.len() >= HEADER_SIZE as int && m@
                    == data@.subrange(0, 4) && m@ != spec_magic(),
                _ => false,
            },
        },
{
    if data.len() < HEADER_SIZE {
        return Err(DecodeError::UnexpectedEof);
    }

    let m0 = *slice_index_get(data, 0);
    let m1 = *slice_index_get(data, 1);
    let m2 = *slice_index_get(data, 2);
    let m3 = *slice_index_get(data, 3);
    proof {
        assert(data@.subrange(0, 4) =~= seq![m0, m1, m2, m3]);
    }
    if !(m0 == 0x08 && m1 == 0xd5 && m2 == 0x19 && m3 == 0x87) {
        let magic = [m0, m1, m2, m3];
        proof {
            assert(magic@ =~= data@.subrange(0, 4));
            assert(magic@ != spec_magic());
        }
        return Err(DecodeError::InvalidMagic(magic));
    }
    proof {
        assert(data@.subrange(0, 4) =~= spec_magic());
    }

    let version = u32_from_le_bytes(slice_subrange(data, 4, 8));
    let count = u32_from_le_bytes(slice_subrange(data, 8, 12));

    let expected: u64 = 20 + 100 * (count as u64);
    proof {
        assert(expected == spec_expected_size(count as int));
    }
    if (data.len() as u64) < expected {
        return Err(DecodeError::UnexpectedEof);
    }

    let n = count as usize;
    let records_offset = HEADER_SIZE + n * 4 + 8;
    proof {
        assert(records_offset == spec_record_offset(n as int, 0));
    }

    let mut records: Vec<Result<Record, DecodeError>> = Vec::new();
    let mut i: usize = 0;
    while i < n
        invariant
            n == spec_count_of(data@),
            data@.len() >= spec_expected_size(n as int),
            data@.len() <= usize::MAX,
            records_offset == spec_record_offset(n as int, 0),
            records@.len() == i,
            0 <= i <= n,
            forall|j: int|
                0 <= j < i ==> spec_outcome_matches(
                    #[trigger] records@[j],
                    spec_record_slot(data@, n as int, j),
                ),
        decreases n - i,
    {
        proof {
            assert(spec_record_offset(n as int, i as int) + RECORD_SIZE as int
                <= spec_expected_size(n as int));
        }
        let off = records_offset + i * RECORD_SIZE;
        proof {
            assert(off == spec_record_offset(n as int, i as int));
        }
        let rb = slice_subrange(data, off, off + RECORD_SIZE);
        let outcome = decode_record(rb);
        records.push(outcome);
        i = i + 1;
    }

    Ok(DecodedFile { version, records })
}

} // verus!
