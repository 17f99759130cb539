use hydra_transit::key::{key_from_decoded, parse_key, HexError};
use hydra_transit::text::decimal_text;

fn digits(n: usize) -> String {
    "ab".repeat(n)
}

#[test]
fn hex_key_is_read() {
    let mut expected = [0u8; 32];
    let mut text = String::new();
    for i in 0..32usize {
        expected[i] = (i * 8 + 3) as u8;
        text.push_str(&format!("{:02x}", expected[i]));
    }
    assert_eq!(parse_key(&text), Ok(expected));
    assert_eq!(parse_key(&text.to_uppercase()), Ok(expected));
}

#[test]
fn white_space_around_the_key_is_ignored() {
    let text = format!(" \t\u{a0}{}\u{3000}\r\n", digits(32));
    assert_eq!(parse_key(&text), Ok([0xab; 32]));
}

#[test]
fn white_space_inside_the_key_is_not() {
    let text = format!("{} {}a", digits(16), digits(15));
    assert_eq!(
        parse_key(&text),
        Err("chiave non valida (atteso esadecimale): Invalid character ' ' at position 32".to_string())
    );
}

#[test]
fn odd_length_comes_before_bad_digits() {
    assert_eq!(
        parse_key("xyz"),
        Err("chiave non valida (atteso esadecimale): Odd number of digits".to_string())
    );
}

#[test]
fn first_bad_digit_is_reported() {
    assert_eq!(
        parse_key("0g1z"),
        Err("chiave non valida (atteso esadecimale): Invalid character 'g' at position 1".to_string())
    );
    assert_eq!(
        parse_key("00é0\n0"),
        Err("chiave non valida (atteso esadecimale): Odd number of digits".to_string())
    );
    assert_eq!(
        parse_key("00é0\n"),
        Err("chiave non valida (atteso esadecimale): Odd number of digits".to_string())
    );
    assert_eq!(
        parse_key("00é"),
        Err("chiave non valida (atteso esadecimale): Invalid character 'Ã' at position 2".to_string())
    );
}

#[test]
fn key_length_has_to_be_right() {
    assert_eq!(
        parse_key(&digits(31)),
        Err("la chiave deve essere di 32 byte (64 caratteri hex), trovati 31 byte".to_string())
    );
    assert_eq!(
        parse_key(""),
        Err("la chiave deve essere di 32 byte (64 caratteri hex), trovati 0 byte".to_string())
    );
    assert_eq!(
        parse_key(&digits(1203)),
        Err("la chiave deve essere di 32 byte (64 caratteri hex), trovati 1203 byte".to_string())
    );
}

#[test]
fn decoded_text_becomes_a_key() {
    assert_eq!(key_from_decoded(Ok(vec![7; 32])), Ok([7; 32]));
    assert!(key_from_decoded(Ok(vec![7; 33])).is_err());
    assert_eq!(
        key_from_decoded(Err(HexError::InvalidHexCharacter { c: '\n', index: 5 })),
        Err("chiave non valida (atteso esadecimale): Invalid character '\\n' at position 5".to_string())
    );
    assert_eq!(
        key_from_decoded(Err(HexError::InvalidStringLength)),
        Err("chiave non valida (atteso esadecimale): Invalid string length".to_string())
    );
}

#[test]
fn numbers_are_rendered_in_decimal() {
    assert_eq!(decimal_text(0), "0");
    assert_eq!(decimal_text(9), "9");
    assert_eq!(decimal_text(10), "10");
    assert_eq!(decimal_text(usize::MAX), usize::MAX.to_string());
}

#[test]
fn digits_may_mix_upper_and_lower_case() {
    let text = format!("\n{}\t", "aBCdEf09".repeat(8));
    let mut expected = [0u8; 32];
    for i in 0..8usize {
        expected[4 * i..4 * i + 4].copy_from_slice(&[0xab, 0xcd, 0xef, 0x09]);
    }
    assert_eq!(parse_key(&text), Ok(expected));
}
