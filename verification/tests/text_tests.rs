use flarmnet::text::{bytes_to_string, format_flarm_id, format_frequency};

#[test]
fn flarm_id_formats_as_six_upper_hex_digits() {
    assert_eq!(format_flarm_id(0x3EE3C7), "3EE3C7");
    assert_eq!(format_flarm_id(0), "000000");
    assert_eq!(format_flarm_id(1), "000001");
    assert_eq!(format_flarm_id(0xFFFFFF), "FFFFFF");
}

#[test]
fn frequency_formats_with_three_fractional_digits() {
    assert_eq!(format_frequency(0), "");
    assert_eq!(format_frequency(123500), "123.500");
    assert_eq!(format_frequency(123150), "123.150");
    assert_eq!(format_frequency(1), "0.001");
    assert_eq!(format_frequency(1000), "1.000");
}

#[test]
fn utf8_bytes_spell_their_string() {
    assert_eq!(bytes_to_string(b"EDKA").unwrap(), "EDKA");
    assert_eq!(bytes_to_string("Ä".as_bytes()).unwrap(), "Ä");
    assert!(bytes_to_string(&[0xFF, 0xFE]).is_none());
}
