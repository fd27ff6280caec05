use muid_search::codec::{
    decode_hex, from_readable_char, from_readable_hex, is_hex_digit, to_readable_char,
    to_readable_hex,
};
use muid_search::hexcode::DecodeError;

#[test]
fn readable_maps_each_digit_to_its_letter() {
    assert_eq!(to_readable_hex("0123456789"), "olzmyshtxg");
}

#[test]
fn readable_leaves_other_characters() {
    assert_eq!(to_readable_hex("abcdef"), "abcdef");
    assert_eq!(to_readable_hex("a-b Q\u{e9}"), "a-b Q\u{e9}");
    assert_eq!(to_readable_hex(""), "");
}

#[test]
fn readable_of_a_hash_prefix() {
    assert_eq!(to_readable_hex("0213"), "ozlm");
    assert_eq!(to_readable_hex("deadbeef0042"), "deadbeefooyz");
}

#[test]
fn plain_maps_each_letter_to_its_digit() {
    assert_eq!(from_readable_hex("olzmyshtxg"), "0123456789");
    assert_eq!(from_readable_hex("ozlm"), "0213");
}

#[test]
fn plain_leaves_other_characters() {
    assert_eq!(from_readable_hex("abcdef0189"), "abcdef0189");
    assert_eq!(from_readable_hex("q-W"), "q-W");
}

#[test]
fn single_characters_map_both_ways() {
    let digits = ['0', '1', '2', '3', '4', '5', '6', '7', '8', '9'];
    let letters = ['o', 'l', 'z', 'm', 'y', 's', 'h', 't', 'x', 'g'];
    for i in 0..10 {
        assert_eq!(to_readable_char(digits[i]), letters[i]);
        assert_eq!(from_readable_char(letters[i]), digits[i]);
    }
    assert_eq!(to_readable_char('a'), 'a');
    assert_eq!(from_readable_char('a'), 'a');
    assert_eq!(from_readable_char('7'), '7');
}

#[test]
fn round_trip_on_every_hex_digit_pair() {
    let digits = "0123456789abcdef";
    for a in digits.chars() {
        for b in digits.chars() {
            let text = format!("{}{}", a, b);
            assert_eq!(from_readable_hex(&to_readable_hex(&text)), text);
        }
    }
}

#[test]
fn round_trip_on_a_long_hex_text() {
    let text = "00112233445566778899aabbccddeeff0123456789abcdef";
    assert_eq!(from_readable_hex(&to_readable_hex(text)), text);
}

#[test]
fn round_trip_fails_on_a_digit_letter() {
    assert_eq!(from_readable_hex(&to_readable_hex("o")), "0");
}

#[test]
fn hex_digit_test() {
    for c in "0123456789abcdef".chars() {
        assert!(is_hex_digit(c));
    }
    for c in "ABCDEFgo xz-/:`".chars() {
        assert!(!is_hex_digit(c));
    }
}

#[test]
fn decode_a_readable_label() {
    assert_eq!(decode_hex("ozlm"), Ok(vec![0x02, 0x13]));
    assert_eq!(decode_hex("deadbeef"), Ok(vec![0xde, 0xad, 0xbe, 0xef]));
    assert_eq!(decode_hex("xx"), Ok(vec![0x88]));
    assert_eq!(decode_hex("0o1l"), Ok(vec![0x00, 0x11]));
    assert_eq!(decode_hex("ff"), Ok(vec![0xff]));
}

#[test]
fn decode_the_empty_label() {
    assert_eq!(decode_hex(""), Ok(vec![]));
}

#[test]
fn decode_refuses_an_odd_length() {
    assert_eq!(decode_hex("ozl"), Err(DecodeError::OddLength));
    assert_eq!(decode_hex("a"), Err(DecodeError::OddLength));
    assert_eq!(decode_hex("qqq"), Err(DecodeError::OddLength));
}

#[test]
fn decode_refuses_a_character_that_is_no_digit() {
    assert_eq!(decode_hex("xq"), Err(DecodeError::InvalidHexCharacter { c: 'q', index: 1 }));
    assert_eq!(decode_hex("wolf"), Err(DecodeError::InvalidHexCharacter { c: 'w', index: 0 }));
    assert_eq!(decode_hex("abkr"), Err(DecodeError::InvalidHexCharacter { c: 'k', index: 2 }));
}

#[test]
fn decode_names_the_digit_that_a_letter_became() {
    assert_eq!(decode_hex("o-"), Err(DecodeError::InvalidHexCharacter { c: '-', index: 1 }));
}

#[test]
fn decode_refuses_upper_case() {
    assert_eq!(decode_hex("AB"), Err(DecodeError::InvalidHexCharacter { c: 'A', index: 0 }));
    assert_eq!(decode_hex("aB"), Err(DecodeError::InvalidHexCharacter { c: 'B', index: 1 }));
}

#[test]
fn decode_counts_characters_not_bytes() {
    assert_eq!(
        decode_hex("\u{e9}0"),
        Err(DecodeError::InvalidHexCharacter { c: '\u{e9}', index: 0 })
    );
    assert_eq!(decode_hex("\u{e9}"), Err(DecodeError::OddLength));
}
