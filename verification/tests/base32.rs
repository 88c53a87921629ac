use geohash_rs::base32::ALPHABET;
use geohash_rs::base32encode;

#[test]
fn base32encode_converts_bytes_to_32ghs_string() {
    let cases = vec![
        (vec![0b01101111, 0b11110000, 0b01000001], "ezs4".to_string()),
        (
            vec![0b01101111, 0b11110000, 0b01000001, 0b00000000],
            "ezs420".to_string(),
        ),
        (
            vec![0b01101111, 0b11110000, 0b01000001, 0b01000100],
            "ezs42j".to_string(),
        ),
        (
            // the trailing last n-bits (n < 5) are ignored
            vec![0b01101111, 0b11110000, 0b01000001, 0b01000111],
            "ezs42j".to_string(),
        ),
        (
            vec![0b01101111, 0b11110000, 0b01000001, 0b01000111, 0b00011111],
            "ezs42jsz".to_string(),
        ),
    ];
    for (bytes, expected) in cases {
        assert_eq!(base32encode(&bytes), expected);
    }
}

#[test]
fn base32encode_of_nothing_is_empty() {
    assert_eq!(base32encode(&[]), "");
}

#[test]
fn base32encode_of_one_byte_drops_three_bits() {
    assert_eq!(base32encode(&[0b11111_000]), "z");
    assert_eq!(base32encode(&[0b11111_111]), "z");
    assert_eq!(base32encode(&[0b00001_111]), "1");
}

#[test]
fn base32encode_of_five_bytes_has_eight_symbols() {
    assert_eq!(base32encode(&[0, 0, 0, 0, 0]), "00000000");
    assert_eq!(base32encode(&[0xff, 0xff, 0xff, 0xff, 0xff]), "zzzzzzzz");
    // groups 00000 00001 00010 00011 00100 00101 00110 00111
    assert_eq!(
        base32encode(&[0b00000000, 0b01000100, 0b00110010, 0b00010100, 0b11000111]),
        "01234567"
    );
}

#[test]
fn every_group_value_has_its_own_symbol() {
    let mut seen: Vec<char> = Vec::new();
    for v in 0u8..32 {
        // the value in the first five bits of one byte
        let text = base32encode(&[v << 3]);
        let symbols: Vec<char> = text.chars().collect();
        assert_eq!(symbols.len(), 1);
        assert_eq!(symbols[0], ALPHABET.chars().nth(v as usize).unwrap());
        assert!(!seen.contains(&symbols[0]));
        seen.push(symbols[0]);
    }
    assert_eq!(seen.len(), 32);
}

#[test]
fn alphabet_omits_ambiguous_letters() {
    assert_eq!(ALPHABET, "0123456789bcdefghjkmnpqrstuvwxyz");
    assert_eq!(ALPHABET.len(), 32);
    for c in ['a', 'i', 'l', 'o'] {
        assert!(!ALPHABET.contains(c));
    }
}

#[test]
fn output_uses_only_the_alphabet() {
    let bytes: Vec<u8> = (0u8..=255).collect();
    let text = base32encode(&bytes);
    assert_eq!(text.len(), 256 * 8 / 5);
    for c in text.chars() {
        assert!(ALPHABET.contains(c));
    }
}

#[test]
fn trailing_bits_do_not_change_the_text() {
    // 4 bytes are 32 bits: six groups and two trailing bits
    for tail in 0u8..4 {
        assert_eq!(base32encode(&[0x6f, 0xf0, 0x41, 0x44 | tail]), "ezs42j");
    }
    // a change inside the last complete group does show
    assert_eq!(base32encode(&[0x6f, 0xf0, 0x41, 0x48]), "ezs42k");
}
