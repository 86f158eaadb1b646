//! Binary geometry of the TDB format: magic signature, section sizes and
//! per-record field offsets, together with the spec-level views of a file's
//! header and record slots that both codec directions are proved against.

use vstd::prelude::*;

verus! {

use vstd::bytes::spec_u32_from_le_bytes;

pub const HEADER_SIZE: usize = 12;

pub const INDEX_ENTRY_SIZE: usize = 4;

pub const PADDING_SIZE: usize = 8;

pub const RECORD_SIZE: usize = 96;

pub const FLARM_ID_OFFSET: usize = 0;

pub const FREQUENCY_OFFSET: usize = 4;

pub const CALL_SIGN_OFFSET: usize = 16;

pub const PILOT_NAME_OFFSET: usize = 32;

pub const AIRFIELD_OFFSET: usize = 48;

pub const PLANE_TYPE_OFFSET: usize = 64;

pub const REGISTRATION_OFFSET: usize = 80;

pub const STRING_FIELD_SIZE: usize = 16;

/// Largest representable FLARM id: 24 bits.
pub const MAX_FLARM_ID: u32 = 0xFFFFFF;

/// The fixed 4-byte signature that every TDB file starts with.
pub open spec fn spec_magic() -> Seq<u8> {
    seq![0x08u8, 0xd5u8, 0x19u8, 0x87u8]
}

/// Version field of a buffer with a complete header.
pub open spec fn spec_version_of(data: Seq<u8>) -> u32
    recommends
        data.len() >= HEADER_SIZE,
{
    spec_u32_from_le_bytes(data.subrange(4, 8))
}

/// Declared record count of a buffer with a complete header.
pub open spec fn spec_count_of(data: Seq<u8>) -> u32
    recommends
        data.len() >= HEADER_SIZE,
{
    spec_u32_from_le_bytes(data.subrange(8, 12))
}

/// Total byte length a file with `n` records must have:
/// header, index, padding, then the fixed-size records.
pub open spec fn spec_expected_size(n: int) -> int {
    HEADER_SIZE as int + n * (INDEX_ENTRY_SIZE as int) + PADDING_SIZE as int + n * (
    RECORD_SIZE as int)
}

/// Byte offset of record slot `i` in a buffer declaring `n` records.
pub open spec fn spec_record_offset(n: int, i: int) -> int {
    HEADER_SIZE as int + n * (INDEX_ENTRY_SIZE as int) + PADDING_SIZE as int + i * (
    RECORD_SIZE as int)
}

/// The 96 bytes of record slot `i`.
pub open spec fn spec_record_slot(data: Seq<u8>, n: int, i: int) -> Seq<u8>
    recommends
        0 <= i < n,
        data.len() >= spec_expected_size(n),
{
    data.subrange(spec_record_offset(n, i), spec_record_offset(n, i) + RECORD_SIZE as int)
}

/// A sequence of `n` zero bytes.
pub open spec fn spec_zeros(n: int) -> Seq<u8> {
    Seq::new(n as nat, |i: int| 0u8)
}

} // verus!
