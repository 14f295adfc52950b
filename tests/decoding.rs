use state_bench::codec::{hex_decode, parse_address, parse_h256, parse_hex, parse_u256, DecodeError};
use state_bench::operation::{decode_operation, Operation, RawOperation};

fn raw(op: &str, address: &str, balance: &str, nonce: u64, code: &str, slot: &str, value: &str) -> RawOperation {
    RawOperation {
        op: op.to_string(),
        address: address.to_string(),
        balance: balance.to_string(),
        nonce,
        code: code.to_string(),
        slot: slot.to_string(),
        value: value.to_string(),
    }
}

fn word(low: &[u8]) -> Vec<u8> {
    let mut w = vec![0u8; 32 - low.len()];
    w.extend_from_slice(low);
    w
}

const ADDR1: &str = "0x0000000000000000000000000000000000000001";
const SLOT1: &str = "0x0000000000000000000000000000000000000000000000000000000000000001";

#[test]
fn hex_decode_with_and_without_prefix() {
    assert_eq!(hex_decode("0x0a0b"), Ok(vec![0x0a, 0x0b]));
    assert_eq!(hex_decode("0a0b"), Ok(vec![0x0a, 0x0b]));
    assert_eq!(hex_decode("0xFFfe"), Ok(vec![0xff, 0xfe]));
    assert_eq!(hex_decode(""), Ok(vec![]));
    assert_eq!(hex_decode("0x"), Ok(vec![]));
}

#[test]
fn hex_decode_odd_length_pads_one_nibble() {
    assert_eq!(hex_decode("abc"), Ok(vec![0x0a, 0xbc]));
    assert_eq!(hex_decode("abc"), hex_decode("0abc"));
    assert_eq!(hex_decode("0x1"), Ok(vec![0x01]));
    assert_eq!(hex_decode("0x1"), hex_decode("0x01"));
}

#[test]
fn hex_decode_rejects_non_hex() {
    assert_eq!(hex_decode("zz"), Err(DecodeError::InvalidHex));
    assert_eq!(hex_decode("0X12"), Err(DecodeError::InvalidHex));
    assert_eq!(hex_decode("12 4"), Err(DecodeError::InvalidHex));
    assert_eq!(hex_decode("\u{e9}1"), Err(DecodeError::InvalidHex));
}

#[test]
fn parse_hex_reads_code() {
    assert_eq!(parse_hex("0x6000"), Ok(vec![0x60, 0x00]));
    assert_eq!(parse_hex("600"), Ok(vec![0x06, 0x00]));
}

#[test]
fn empty_numeric_field_is_zero() {
    assert_eq!(parse_u256(""), Ok(vec![0u8; 32]));
    assert_eq!(parse_u256("0x"), Ok(vec![0u8; 32]));
}

#[test]
fn numeric_field_is_widened_big_endian() {
    assert_eq!(parse_u256("0x64"), Ok(word(&[0x64])));
    assert_eq!(parse_u256("0x1234"), Ok(word(&[0x12, 0x34])));
    assert_eq!(parse_u256("0x123"), Ok(word(&[0x01, 0x23])));
    let full = "ff".repeat(32);
    assert_eq!(parse_u256(&full), Ok(vec![0xff; 32]));
}

#[test]
fn numeric_field_wider_than_a_word_is_refused() {
    let wide = "01".repeat(33);
    assert_eq!(parse_u256(&wide), Err(DecodeError::NumberTooWide { found: 33 }));
    assert_eq!(parse_u256("0xg"), Err(DecodeError::InvalidHex));
}

#[test]
fn address_must_hold_twenty_bytes() {
    let mut expected = vec![0u8; 20];
    expected[19] = 1;
    assert_eq!(parse_address(ADDR1), Ok(expected));
    assert_eq!(parse_address("0x01"), Err(DecodeError::WrongLength { expected: 20, found: 1 }));
    assert_eq!(parse_address(""), Err(DecodeError::WrongLength { expected: 20, found: 0 }));
    assert_eq!(parse_address("0xzz"), Err(DecodeError::InvalidHex));
}

#[test]
fn slot_must_hold_thirty_two_bytes() {
    assert_eq!(parse_h256(SLOT1), Ok(word(&[1])));
    assert_eq!(parse_h256("0x01"), Err(DecodeError::WrongLength { expected: 32, found: 1 }));
}

#[test]
fn decodes_create_account() {
    match decode_operation(&raw("create_account", ADDR1, "0x64", 7, "", "", "")) {
        Ok(Operation::CreateAccount { address, balance, nonce }) => {
            assert_eq!(address[19], 1);
            assert_eq!(address.len(), 20);
            assert_eq!(balance, word(&[0x64]));
            assert_eq!(nonce, 7);
        }
        other => panic!("unexpected {:?}", other),
    }
}

#[test]
fn decodes_set_code_and_set_storage() {
    match decode_operation(&raw("set_code", ADDR1, "", 0, "0x6000", "", "")) {
        Ok(Operation::SetCode { code, .. }) => assert_eq!(code, vec![0x60, 0x00]),
        other => panic!("unexpected {:?}", other),
    }
    match decode_operation(&raw("set_storage", ADDR1, "", 0, "", SLOT1, "0x2a")) {
        Ok(Operation::SetStorage { slot, value, .. }) => {
            assert_eq!(slot, word(&[1]));
            assert_eq!(value, word(&[0x2a]));
        }
        other => panic!("unexpected {:?}", other),
    }
}

#[test]
fn decodes_finalize_and_refuses_unknown() {
    assert!(matches!(decode_operation(&raw("compute_root", "", "", 0, "", "", "")), Ok(Operation::Finalize)));
    assert!(matches!(
        decode_operation(&raw("delete_account", ADDR1, "", 0, "", "", "")),
        Err(DecodeError::UnknownOperation)
    ));
}

#[test]
fn decoding_reports_the_first_bad_field() {
    assert!(matches!(
        decode_operation(&raw("set_storage", "0x01", "", 0, "", "0x01", "0x2a")),
        Err(DecodeError::WrongLength { expected: 20, found: 1 })
    ));
    assert!(matches!(
        decode_operation(&raw("set_storage", ADDR1, "", 0, "", "0x01", "0x2a")),
        Err(DecodeError::WrongLength { expected: 32, found: 1 })
    ));
    assert!(matches!(
        decode_operation(&raw("create_account", ADDR1, "0xq", 0, "", "", "")),
        Err(DecodeError::InvalidHex)
    ));
    assert!(matches!(
        decode_operation(&raw("set_code", ADDR1, "", 0, "0xq", "", "")),
        Err(DecodeError::InvalidHex)
    ));
}

#[test]
fn decoding_the_same_line_twice_agrees() {
    let r = raw("set_storage", ADDR1, "", 0, "", SLOT1, "0x2a");
    let a = format!("{:?}", decode_operation(&r));
    let b = format!("{:?}", decode_operation(&r));
    assert_eq!(a, b);
}
