use soundcore_lib5_core::cli::{hex, is_confirmation, parse_payload_hex, parse_u16_hex, unused};
use soundcore_lib5_core::finder::LibertyDeviceInfo;

#[test]
fn hex_is_lower_case_two_digits_per_byte() {
    assert_eq!(hex(&[0x00, 0x10, 0xab, 0xff]), "0010abff");
    assert_eq!(hex(&[]), "");
}

#[test]
fn command_code_is_little_endian() {
    assert_eq!(parse_u16_hex("0681"), Ok(0x8106));
    assert_eq!(parse_u16_hex("1085"), Ok(0x8510));
    assert_eq!(parse_u16_hex("FFff"), Ok(0xffff));
}

#[test]
fn command_code_errors() {
    assert_eq!(parse_u16_hex("zz"), Err("geçersiz hex: Invalid character 'z' at position 0".to_string()));
    assert_eq!(parse_u16_hex("123"), Err("geçersiz hex: Odd number of digits".to_string()));
    assert_eq!(parse_u16_hex("010203"), Err("komut kodu 2 bayt olmalı, 3 verildi".to_string()));
    assert_eq!(parse_u16_hex(""), Err("komut kodu 2 bayt olmalı, 0 verildi".to_string()));
}

#[test]
fn confirmation_accepts_e_in_any_case() {
    assert!(is_confirmation("e\n"));
    assert!(is_confirmation("  E "));
    assert!(!is_confirmation("evet"));
    assert!(!is_confirmation(""));
    unused(&LibertyDeviceInfo {
        device_id: String::new(),
        name: String::new(),
        address: String::new(),
        connected: false,
    });
}

#[test]
fn payload_hex_parses_or_names_the_problem() {
    assert_eq!(parse_payload_hex("0110ff"), Ok(vec![0x01, 0x10, 0xff]));
    assert_eq!(parse_payload_hex(""), Ok(vec![]));
    assert_eq!(parse_payload_hex("0x"), Err("payload geçersiz hex: Invalid character 'x' at position 1".to_string()));
}

#[test]
fn scanner_hex_agrees_with_hex_crate() {
    let bytes: Vec<u8> = (0u8..=255).collect();
    assert_eq!(hex(&bytes), ::hex::encode(&bytes));
}

#[test]
fn hex_text_has_two_digits_per_byte_and_decodes_back() {
    assert_eq!(hex(&[0x00, 0xab, 0x10]), "00ab10");
    let bytes: Vec<u8> = vec![0xde, 0xad, 0xbe, 0xef, 0x01];
    let text = hex(&bytes);
    assert_eq!(text.len(), 2 * bytes.len());
    assert!(text.chars().all(|c| c.is_ascii_digit() || ('a'..='f').contains(&c)));
    assert_eq!(parse_payload_hex(&text), Ok(bytes));
    assert_eq!(parse_u16_hex("00000000000000000000"), Err("komut kodu 2 bayt olmalı, 10 verildi".to_string()));
}
