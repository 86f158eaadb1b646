//! Codec for the TDB binary file format used to exchange FLARM/transponder
//! identity databases: a byte-exact mapping between the on-disk layout
//! (fixed header, sorted index, padding, fixed-size records) and an
//! in-memory collection of structured records.

use vstd::prelude::*;

pub mod consts;
pub mod decode;
pub mod encode;
pub mod laws;
pub mod text;

verus! {

/// One device/pilot entry of the database.
///
/// `flarm_id` is the record's identity and sort key: canonically exactly six
/// uppercase hexadecimal digits naming a 24-bit device id. `frequency` is
/// either empty ("no frequency assigned") or a decimal in MHz with three
/// fractional digits, such as "123.500". The remaining fields are free text,
/// stored on disk in 16-byte zero-padded slots.
#[derive(Debug, Clone)]
pub struct Record {
    pub flarm_id: String,
    pub pilot_name: String,
    pub airfield: String,
    pub plane_type: String,
    pub registration: String,
    pub call_sign: String,
    pub frequency: String,
}

/// An in-memory database: an opaque format-version tag and its records.
#[derive(Debug, Clone)]
pub struct File {
    pub version: u32,
    pub records: Vec<Record>,
}

} // verus!
