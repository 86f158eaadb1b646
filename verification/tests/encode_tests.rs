use flarmnet::decode::decode_file;
use flarmnet::encode::{encode_file, parse_flarm_id, parse_frequency, EncodeError, Writer};
use flarmnet::{File, Record};

fn make_file(records: Vec<Record>) -> File {
    File {
        version: 1,
        records,
    }
}

fn make_record(
    flarm_id: &str,
    frequency: &str,
    call_sign: &str,
    pilot_name: &str,
    airfield: &str,
    plane_type: &str,
    registration: &str,
) -> Record {
    Record {
        flarm_id: flarm_id.to_string(),
        frequency: frequency.to_string(),
        call_sign: call_sign.to_string(),
        pilot_name: pilot_name.to_string(),
        airfield: airfield.to_string(),
        plane_type: plane_type.to_string(),
        registration: registration.to_string(),
    }
}

#[test]
fn encoding_round_trips() {
    let file = make_file(vec![make_record(
        "3EE3C7", "123.500", "SG", "John Doe", "EDKA", "LS6a", "D-0816",
    )]);
    let encoded = encode_file(&file).unwrap();
    let decoded = decode_file(&encoded).unwrap();
    assert_eq!(decoded.version, 1);
    assert_eq!(decoded.records.len(), 1);
    let record = decoded.records[0].as_ref().unwrap();
    assert_eq!(record.flarm_id, "3EE3C7");
    assert_eq!(record.frequency, "123.500");
    assert_eq!(record.call_sign, "SG");
    assert_eq!(record.pilot_name, "John Doe");
    assert_eq!(record.airfield, "EDKA");
    assert_eq!(record.plane_type, "LS6a");
    assert_eq!(record.registration, "D-0816");
}

#[test]
fn encoding_handles_empty_frequency() {
    let file = make_file(vec![make_record(
        "000001",
        "",
        "",
        "",
        "",
        "Paraglider",
        "",
    )]);
    let encoded = encode_file(&file).unwrap();
    let decoded = decode_file(&encoded).unwrap();
    let record = decoded.records[0].as_ref().unwrap();
    assert_eq!(record.frequency, "");
}

#[test]
fn encoding_sorts_records_by_flarm_id() {
    let file = make_file(vec![
        make_record("00000F", "", "X27", "", "D-9527", "ASW 27", "D-9527"),
        make_record("000001", "", "", "", "", "Paraglider", ""),
        make_record("000000", "123.150", "", "", "D-2188", "ASK-13", "D-2188"),
    ]);
    let encoded = encode_file(&file).unwrap();
    let decoded = decode_file(&encoded).unwrap();
    let ids: Vec<&str> = decoded
        .records
        .iter()
        .map(|r| r.as_ref().unwrap().flarm_id.as_str())
        .collect();
    assert_eq!(ids, vec!["000000", "000001", "00000F"]);
}

#[test]
fn encoding_truncates_long_strings() {
    let file = make_file(vec![make_record(
        "000001",
        "",
        "0123456789ABCDEF",
        "",
        "",
        "",
        "",
    )]);
    let encoded = encode_file(&file).unwrap();
    let decoded = decode_file(&encoded).unwrap();
    let record = decoded.records[0].as_ref().unwrap();
    assert_eq!(record.call_sign, "0123456789ABCDE");
}

#[test]
fn encoding_truncates_at_char_boundary() {
    // "Ä" is 2 bytes in UTF-8, so 14 ASCII + "Ä" = 16 bytes, exceeds 15
    let file = make_file(vec![make_record(
        "000001",
        "",
        "01234567890123Ä",
        "",
        "",
        "",
        "",
    )]);
    let encoded = encode_file(&file).unwrap();
    let decoded = decode_file(&encoded).unwrap();
    let record = decoded.records[0].as_ref().unwrap();
    assert_eq!(record.call_sign, "01234567890123");
}

#[test]
fn encoding_fails_for_invalid_flarm_id() {
    let file = make_file(vec![make_record("ZZZZZZ", "", "", "", "", "", "")]);
    match encode_file(&file).unwrap_err() {
        EncodeError::InvalidFlarmId(s) => assert_eq!(s, "ZZZZZZ"),
        other => panic!("unexpected error: {:?}", other),
    }
}

#[test]
fn encoding_fails_for_flarm_id_too_large() {
    let file = make_file(vec![make_record("1000000", "", "", "", "", "", "")]);
    match encode_file(&file).unwrap_err() {
        EncodeError::InvalidFlarmId(s) => assert_eq!(s, "1000000"),
        other => panic!("unexpected error: {:?}", other),
    }
}

#[test]
fn encoding_fails_for_invalid_frequency() {
    let file = make_file(vec![make_record("000001", "abc", "", "", "", "", "")]);
    match encode_file(&file).unwrap_err() {
        EncodeError::InvalidFrequency(s) => assert_eq!(s, "abc"),
        other => panic!("unexpected error: {:?}", other),
    }
}

#[test]
fn encoding_keeps_input_order_for_equal_ids() {
    let file = make_file(vec![
        make_record("000005", "", "first", "", "", "", ""),
        make_record("000005", "", "second", "", "", "", ""),
    ]);
    let encoded = encode_file(&file).unwrap();
    let decoded = decode_file(&encoded).unwrap();
    assert_eq!(decoded.records[0].as_ref().unwrap().call_sign, "first");
    assert_eq!(decoded.records[1].as_ref().unwrap().call_sign, "second");
}

#[test]
fn encoding_accepts_largest_flarm_id() {
    let file = make_file(vec![make_record("FFFFFF", "", "", "", "", "", "")]);
    let encoded = encode_file(&file).unwrap();
    let decoded = decode_file(&encoded).unwrap();
    assert_eq!(decoded.records[0].as_ref().unwrap().flarm_id, "FFFFFF");
}

#[test]
fn encoding_accepts_lowercase_flarm_id() {
    assert_eq!(parse_flarm_id("3ee3c7").unwrap(), 0x3EE3C7);
}

#[test]
fn frequency_parses_to_thousandths() {
    assert_eq!(parse_frequency("").unwrap(), 0);
    assert_eq!(parse_frequency("123.500").unwrap(), 123500);
    assert_eq!(parse_frequency("121.05").unwrap(), 121050);
    assert_eq!(parse_frequency("1.2346").unwrap(), 1235);
    assert!(matches!(
        parse_frequency("1.2.3").unwrap_err(),
        EncodeError::InvalidFrequency(_)
    ));
    assert!(matches!(
        parse_frequency(".").unwrap_err(),
        EncodeError::InvalidFrequency(_)
    ));
}

#[test]
fn writer_appends_to_its_buffer() {
    let file = make_file(vec![]);
    let mut writer = Writer::new(vec![0xAA]);
    writer.write(&file).unwrap();
    let out = writer.into_inner();
    assert_eq!(out.len(), 1 + 20);
    assert_eq!(out[0], 0xAA);
    assert_eq!(&out[1..5], &[0x08, 0xd5, 0x19, 0x87]);
}

#[test]
fn empty_database_encodes_to_header_and_padding() {
    let file = make_file(vec![]);
    let encoded = encode_file(&file).unwrap();
    assert_eq!(encoded.len(), 20);
    let decoded = decode_file(&encoded).unwrap();
    assert_eq!(decoded.version, 1);
    assert_eq!(decoded.records.len(), 0);
}

#[test]
fn example_record_round_trips_in_120_bytes() {
    let file = File {
        version: 1,
        records: vec![make_record(
            "3EE3C7", "123.500", "SG", "", "EDKA", "LS6a", "D-0816",
        )],
    };
    let encoded = encode_file(&file).unwrap();
    assert_eq!(encoded.len(), 120);
    // frequency is stored as 123500 thousandths of MHz, little-endian
    let freq_offset = 20 + 4;
    assert_eq!(
        &encoded[freq_offset + 4..freq_offset + 8],
        &123500u32.to_le_bytes()
    );
    let decoded = decode_file(&encoded).unwrap();
    let record = decoded.records[0].as_ref().unwrap();
    assert_eq!(record.flarm_id, "3EE3C7");
    assert_eq!(record.frequency, "123.500");
    assert_eq!(record.call_sign, "SG");
    assert_eq!(record.airfield, "EDKA");
    assert_eq!(record.plane_type, "LS6a");
    assert_eq!(record.registration, "D-0816");
}

#[test]
fn encoding_twice_is_byte_identical() {
    let file = make_file(vec![
        make_record("00000F", "", "X27", "", "D-9527", "ASW 27", "D-9527"),
        make_record("000001", "118.0", "", "", "", "Paraglider", ""),
        make_record("3ee3c7", "123.5", "SG", "John Doe", "EDKA", "LS6a", "D-0816"),
    ]);
    let encoded = encode_file(&file).unwrap();
    let decoded = decode_file(&encoded).unwrap();
    let file2 = File {
        version: decoded.version,
        records: decoded
            .records
            .into_iter()
            .map(|r| r.unwrap())
            .collect(),
    };
    let encoded2 = encode_file(&file2).unwrap();
    assert_eq!(encoded, encoded2);
}
