use arrayvec::ArrayVec;
use bacc_core::{bytes_to_hex, hex_to_bytes, hex_to_nib, pip_value, Rank};

#[test]
fn pip_value_all_ranks() {
    let cases = [
        (Rank::Ace, 1),
        (Rank::Deuce, 2),
        (Rank::Trey, 3),
        (Rank::Four, 4),
        (Rank::Five, 5),
        (Rank::Six, 6),
        (Rank::Seven, 7),
        (Rank::Eight, 8),
        (Rank::Nine, 9),
        (Rank::Ten, 10),
        (Rank::Jack, 10),
        (Rank::Queen, 10),
        (Rank::King, 10),
    ];
    for (card, expected) in cases {
        assert_eq!(pip_value(card), expected);
    }
}

#[test]
fn bytes_to_hex_single_byte_with_leading_zero() {
    let mut v: ArrayVec<u8, 192> = ArrayVec::new();
    v.push(0x09);
    assert_eq!(bytes_to_hex(&v).as_str(), "09");
}

#[test]
fn bytes_to_hex_multiple_bytes() {
    let mut v: ArrayVec<u8, 192> = ArrayVec::new();
    v.push(0x09);
    v.push(0x03);
    v.push(0xab);
    assert_eq!(bytes_to_hex(&v).as_str(), "0903ab");
}

#[test]
fn hex_to_bytes_empty() {
    let v = hex_to_bytes("");
    assert_eq!(v.as_slice(), &[] as &[u8]);
}

#[test]
fn hex_to_bytes_even_length() {
    let v = hex_to_bytes("0903ab");
    assert_eq!(v.as_slice(), &[0x09, 0x03, 0xab]);
}

#[test]
fn hex_to_bytes_odd_length_leading_zero_implied() {
    let v = hex_to_bytes("abc");
    assert_eq!(v.as_slice(), &[0x0a, 0xbc]);
}

#[test]
fn bytes_to_hex_and_hex_to_bytes_roundtrip() {
    let mut v: ArrayVec<u8, 192> = ArrayVec::new();
    v.push(0x09);
    v.push(0x03);
    v.push(0xab);
    let hex = bytes_to_hex(&v);
    let decoded = hex_to_bytes(hex.as_str());
    assert_eq!(decoded.as_slice(), v.as_slice());
}

#[test]
fn hex_to_nib_cases() {
    let cases = [
        (b'0', 0),
        (b'9', 9),
        (b'a', 10),
        (b'f', 15),
        (b'A', 10),
        (b'F', 15),
        (b'x', 0),
    ];
    for (input, expected) in cases {
        assert_eq!(hex_to_nib(input), expected);
    }
}

#[test]
fn hex_roundtrip_every_byte_value() {
    let mut v: ArrayVec<u8, 192> = ArrayVec::new();
    for b in 0..=191u8 {
        v.push(b.wrapping_mul(97).wrapping_add(13));
    }
    let hex = bytes_to_hex(&v);
    assert_eq!(hex.len(), 384);
    assert!(hex.chars().all(|c| c.is_ascii_digit() || ('a'..='f').contains(&c)));
    assert_eq!(hex_to_bytes(hex.as_str()).as_slice(), v.as_slice());
}

#[test]
fn bytes_to_hex_uses_lowercase_digits() {
    let mut v: ArrayVec<u8, 192> = ArrayVec::new();
    v.push(0xff);
    v.push(0x00);
    v.push(0x5a);
    assert_eq!(bytes_to_hex(&v).as_str(), "ff005a");
}

#[test]
fn hex_to_bytes_accepts_upper_case_and_zeroes_other_characters() {
    assert_eq!(hex_to_bytes("ABcd").as_slice(), &[0xab, 0xcd]);
    assert_eq!(hex_to_bytes("zz1g").as_slice(), &[0x00, 0x10]);
    assert_eq!(hex_to_bytes("7").as_slice(), &[0x07]);
}

#[test]
fn hex_to_bytes_reads_utf8_bytes_of_non_ascii_text() {
    // 'é' is two UTF-8 bytes, neither a hex digit.
    assert_eq!(hex_to_bytes("é1").as_slice(), &[0x00, 0x01]);
}
