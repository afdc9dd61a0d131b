use donner::hexes::{
    block_id_hex, bytes_to_hex, describe_hex_error, find_fault, hex_to_bytes, invalid_character,
    read_hex, HexError, PairFault,
};

#[test]
fn bytes_are_written_in_lower_case() {
    assert_eq!(bytes_to_hex(&[0x00, 0x0f, 0xa0, 0xff]), "000fa0ff");
    assert_eq!(bytes_to_hex(&[]), "");
}

#[test]
fn every_byte_reads_back() {
    let all: Vec<u8> = (0u8..=255).collect();
    assert_eq!(hex_to_bytes(&bytes_to_hex(&all)), all);
}

#[test]
fn digits_of_both_cases_are_read() {
    assert_eq!(hex_to_bytes("000FfA"), vec![0x00, 0x0f, 0xfa]);
    assert_eq!(hex_to_bytes(""), Vec::<u8>::new());
}

#[test]
fn a_pair_may_be_a_plus_sign_and_a_digit() {
    assert_eq!(read_hex("+f10"), Some(vec![0x0f, 0x10]));
    assert_eq!(read_hex("f+"), None);
    assert_eq!(read_hex("++"), None);
    assert_eq!(read_hex("-1"), None);
}

#[test]
fn other_texts_stand_for_no_bytes() {
    assert_eq!(read_hex("abc"), None);
    assert_eq!(read_hex("0g"), None);
    assert_eq!(read_hex("\u{e9}"), None);
    assert_eq!(read_hex("\u{20ac}a"), None);
}

#[test]
fn the_first_pair_that_fails_decides() {
    assert_eq!(find_fault("00ff+A"), None);
    assert_eq!(find_fault(""), None);
    assert_eq!(find_fault("00ff0g"), Some((PairFault::Digit, 4)));
    assert_eq!(find_fault("00f"), Some((PairFault::Cut, 2)));
    for digit in ["0g", "0g1", "-1", "\u{e9}", "\u{e9}\u{20ac}", "00  "] {
        assert!(matches!(find_fault(digit), Some((PairFault::Digit, _))));
        assert_eq!(read_hex(digit), None);
    }
    for cut in ["0", "abc", "0\u{e9}", "\u{20ac}a", "00\u{1f600}", "ab0\u{e9}0g"] {
        assert!(matches!(find_fault(cut), Some((PairFault::Cut, _))));
        assert_eq!(read_hex(cut), None);
    }
}

#[test]
fn different_bytes_are_written_differently() {
    assert_ne!(bytes_to_hex(&[1]), bytes_to_hex(&[0, 1]));
    assert_ne!(bytes_to_hex(&[0x10]), bytes_to_hex(&[0x01]));
}

#[test]
fn a_block_id_takes_sixty_four_digits() {
    let mut id = [0u8; 32];
    id[31] = 0xab;
    let text = block_id_hex(&id);
    assert_eq!(text.len(), 64);
    assert!(text.ends_with("00ab"));
}

#[test]
fn decoding_errors_read_as_sentences() {
    let e = HexError::InvalidCharacter { c: 'g', index: 12 };
    assert_eq!(describe_hex_error(&e), "Invalid character 'g' at position 12");
    let quote = HexError::InvalidCharacter { c: '\'', index: 0 };
    assert_eq!(describe_hex_error(&quote), "Invalid character '\\'' at position 0");
    assert_eq!(invalid_character("<x>", 3), "Invalid character <x> at position 3");
    assert_eq!(describe_hex_error(&HexError::OddLength), "Odd number of digits");
    assert_eq!(describe_hex_error(&HexError::InvalidLength), "Invalid string length");
}
