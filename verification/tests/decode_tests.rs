use flarmnet::consts::{
    AIRFIELD_OFFSET, CALL_SIGN_OFFSET, FLARM_ID_OFFSET, FREQUENCY_OFFSET, PADDING_SIZE,
    PLANE_TYPE_OFFSET, RECORD_SIZE, REGISTRATION_OFFSET, STRING_FIELD_SIZE,
};
use flarmnet::decode::{decode_file, DecodeError};

const MAGIC: [u8; 4] = [0x08, 0xd5, 0x19, 0x87];

fn make_valid_file(records: &[[u8; RECORD_SIZE]]) -> Vec<u8> {
    let n = records.len() as u32;
    let mut data = Vec::new();

    // header
    data.extend_from_slice(&MAGIC);
    data.extend_from_slice(&1u32.to_le_bytes()); // version = 1
    data.extend_from_slice(&n.to_le_bytes());

    // index (dummy sorted flarm_ids)
    for record in records {
        let flarm_id = u32::from_le_bytes(record[0..4].try_into().unwrap());
        data.extend_from_slice(&flarm_id.to_le_bytes());
    }

    // padding
    data.extend_from_slice(&[0u8; PADDING_SIZE]);

    // records
    for record in records {
        data.extend_from_slice(record);
    }

    data
}

fn make_record(
    flarm_id: u32,
    frequency: u32,
    call_sign: &[u8],
    airfield: &[u8],
    plane_type: &[u8],
    registration: &[u8],
) -> [u8; RECORD_SIZE] {
    let mut record = [0u8; RECORD_SIZE];
    record[FLARM_ID_OFFSET..FLARM_ID_OFFSET + 4].copy_from_slice(&flarm_id.to_le_bytes());
    record[FREQUENCY_OFFSET..FREQUENCY_OFFSET + 4].copy_from_slice(&frequency.to_le_bytes());

    let fields: [(&[u8], usize); 4] = [
        (call_sign, CALL_SIGN_OFFSET),
        (airfield, AIRFIELD_OFFSET),
        (plane_type, PLANE_TYPE_OFFSET),
        (registration, REGISTRATION_OFFSET),
    ];
    for (value, offset) in &fields {
        let len = value.len().min(STRING_FIELD_SIZE - 1);
        record[*offset..*offset + len].copy_from_slice(&value[..len]);
    }

    record
}

#[test]
fn decoding_fails_for_empty_file() {
    assert!(matches!(
        decode_file(b"").unwrap_err(),
        DecodeError::UnexpectedEof
    ));
}

#[test]
fn decoding_fails_for_truncated_header() {
    assert!(matches!(
        decode_file(&[0x08, 0xd5, 0x19]).unwrap_err(),
        DecodeError::UnexpectedEof
    ));
}

#[test]
fn decoding_fails_for_invalid_magic() {
    let data = [
        0x00, 0x00, 0x00, 0x00, 0x00, 0x00, 0x00, 0x00, 0x00, 0x00, 0x00, 0x00,
    ];
    assert!(matches!(
        decode_file(&data).unwrap_err(),
        DecodeError::InvalidMagic([0, 0, 0, 0])
    ));
}

#[test]
fn decoding_fails_for_truncated_records() {
    // valid header claiming 1 record, but no index/padding/record data
    let mut data = vec![0x08, 0xd5, 0x19, 0x87]; // magic
    data.extend_from_slice(&1u32.to_le_bytes()); // version
    data.extend_from_slice(&1u32.to_le_bytes()); // record count = 1
    assert!(matches!(
        decode_file(&data).unwrap_err(),
        DecodeError::UnexpectedEof
    ));
}

#[test]
fn decoding_works_for_empty_database() {
    let data = make_valid_file(&[]);
    let result = decode_file(&data).unwrap();
    assert_eq!(result.version, 1);
    assert_eq!(result.records.len(), 0);
}

#[test]
fn decoding_works_for_single_record() {
    let record = make_record(0x3EE3C7, 123500, b"SG", b"EDKA", b"LS6a", b"D-0816");
    let data = make_valid_file(&[record]);
    let result = decode_file(&data).unwrap();
    assert_eq!(result.version, 1);
    assert_eq!(result.records.len(), 1);
    let record = result.records[0].as_ref().unwrap();
    assert_eq!(record.flarm_id, "3EE3C7");
    assert_eq!(record.pilot_name, "");
    assert_eq!(record.airfield, "EDKA");
    assert_eq!(record.plane_type, "LS6a");
    assert_eq!(record.registration, "D-0816");
    assert_eq!(record.call_sign, "SG");
    assert_eq!(record.frequency, "123.500");
}

#[test]
fn decoding_works_with_zero_frequency() {
    let record = make_record(0x000001, 0, b"", b"", b"Paraglider", b"");
    let data = make_valid_file(&[record]);
    let result = decode_file(&data).unwrap();
    let record = result.records[0].as_ref().unwrap();
    assert_eq!(record.frequency, "");
}

#[test]
fn decoding_reports_invalid_flarm_id() {
    let mut record = [0u8; RECORD_SIZE];
    record[0..4].copy_from_slice(&0x01000000u32.to_le_bytes()); // > 0xFFFFFF
    let data = make_valid_file(&[record]);
    let result = decode_file(&data).unwrap();
    assert!(matches!(
        result.records[0].as_ref().unwrap_err(),
        DecodeError::InvalidFlarmId(16777216)
    ));
}

#[test]
fn decoding_reports_invalid_utf8() {
    let mut record = make_record(0x000001, 0, b"", b"", b"", b"");
    // put invalid UTF-8 in the call_sign field
    record[CALL_SIGN_OFFSET] = 0xFF;
    record[CALL_SIGN_OFFSET + 1] = 0xFE;
    let data = make_valid_file(&[record]);
    let result = decode_file(&data).unwrap();
    assert!(matches!(
        result.records[0].as_ref().unwrap_err(),
        DecodeError::InvalidUtf8 {
            field: "call_sign",
            offset: 16,
        }
    ));
}

#[test]
fn decoding_accepts_largest_flarm_id() {
    let record = make_record(0xFFFFFF, 0, b"", b"", b"", b"");
    let data = make_valid_file(&[record]);
    let result = decode_file(&data).unwrap();
    let record = result.records[0].as_ref().unwrap();
    assert_eq!(record.flarm_id, "FFFFFF");
}

#[test]
fn decoding_reports_observed_magic_bytes() {
    let data = [
        0xDE, 0xAD, 0xBE, 0xEF, 0x00, 0x00, 0x00, 0x00, 0x00, 0x00, 0x00, 0x00,
    ];
    assert!(matches!(
        decode_file(&data).unwrap_err(),
        DecodeError::InvalidMagic([0xDE, 0xAD, 0xBE, 0xEF])
    ));
}

#[test]
fn decoding_fails_when_one_of_two_records_is_missing() {
    let record = make_record(0x000001, 0, b"", b"", b"", b"");
    let mut data = make_valid_file(&[record]);
    // claim a second record without providing its bytes
    data[8..12].copy_from_slice(&2u32.to_le_bytes());
    assert!(matches!(
        decode_file(&data).unwrap_err(),
        DecodeError::UnexpectedEof
    ));
}

#[test]
fn decoding_reads_full_field_without_terminator() {
    // a text field using all 16 bytes with no zero byte is read whole
    let mut record = make_record(0x000001, 0, b"", b"", b"", b"");
    record[CALL_SIGN_OFFSET..CALL_SIGN_OFFSET + 16].copy_from_slice(b"0123456789ABCDEF");
    let data = make_valid_file(&[record]);
    let result = decode_file(&data).unwrap();
    let record = result.records[0].as_ref().unwrap();
    assert_eq!(record.call_sign, "0123456789ABCDEF");
}
