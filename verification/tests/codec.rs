use crockford_base32::alphabet::{INVERSE, NO_VALUE, SYMBOLS};
use crockford_base32::{decode, decoded_length, encode, encoded_length, symbol_for, value_of};

fn chars(s: &str) -> Vec<char> {
    s.chars().collect()
}

fn text(symbols: &[char]) -> String {
    symbols.iter().collect()
}

/// A fixed, varied payload of `n` bytes.
fn payload(n: usize) -> Vec<u8> {
    (0..n).map(|i| (i * 151 + 43) as u8 ^ (i >> 3) as u8).collect()
}

#[test]
fn masks() {
    assert_eq!(encode(&[0xF8, 0x3E, 0x0F, 0x83, 0xE0]), chars("Z0Z0Z0Z0"));
    assert_eq!(encode(&[0x07, 0xC1, 0xF0, 0x7C, 0x1F]), chars("0Z0Z0Z0Z"));
    assert_eq!(decode(&chars("Z0Z0Z0Z0")).unwrap(), vec![0xF8, 0x3E, 0x0F, 0x83, 0xE0]);
    assert_eq!(decode(&chars("0Z0Z0Z0Z")).unwrap(), vec![0x07, 0xC1, 0xF0, 0x7C, 0x1F]);
}

#[test]
#[allow(non_snake_case)]
fn iIlL1_oO0() {
    assert_eq!(decode(&chars("IiLlOo")), decode(&chars("111100")));
}

#[test]
fn invalid_chars() {
    assert_eq!(decode(&chars(",")), None)
}

#[test]
fn empty_buffers() {
    assert_eq!(encode(&[]), Vec::<char>::new());
    assert_eq!(decode(&[]), Some(Vec::<u8>::new()));
}

#[test]
fn aliases_decode_to_their_digits() {
    assert_eq!(decode(&chars("IiLlOo")), Some(vec![8, 66, 16]));
    assert_eq!(decode(&chars("111100")), Some(vec![8, 66, 16]));
    for c in ['I', 'i', 'L', 'l'] {
        assert_eq!(value_of(c), Some(1));
    }
    for c in ['O', 'o'] {
        assert_eq!(value_of(c), Some(0));
    }
}

#[test]
fn encode_known_vectors() {
    assert_eq!(text(&encode(&[0xFF])), "ZW");
    assert_eq!(text(&encode(&[0x00])), "00");
    assert_eq!(text(&encode(b"f")), "CR");
    assert_eq!(text(&encode(b"fo")), "CSQG");
    assert_eq!(text(&encode(b"foo")), "CSQPY");
    assert_eq!(text(&encode(b"foob")), "CSQPYRG");
    assert_eq!(text(&encode(b"fooba")), "CSQPYRK1");
    assert_eq!(text(&encode(b"foobar")), "CSQPYRK1E8");
    assert_eq!(text(&encode(&[1, 2, 3, 4, 5, 6, 7])), "041061050R3G");
    assert_eq!(
        text(&encode(&[0x12, 0x34, 0x56, 0x78, 0x9A, 0xBC, 0xDE, 0xF0])),
        "28T5CY4TQKFF0"
    );
}

#[test]
fn decode_known_vectors() {
    assert_eq!(decode(&chars("CSQPYRK1E8")), Some(b"foobar".to_vec()));
    assert_eq!(decode(&chars("csqpyrk1e8")), Some(b"foobar".to_vec()));
    assert_eq!(decode(&chars("ABCDEFGH")), Some(vec![82, 216, 215, 62, 17]));
    assert_eq!(decode(&chars("hjkmnpqr")), Some(vec![140, 167, 74, 218, 248]));
    assert_eq!(decode(&chars("STVWXYZ0")), Some(vec![206, 183, 206, 251, 224]));
    assert_eq!(decode(&chars("16")), Some(vec![9]));
}

#[test]
fn decode_drops_leftover_bits() {
    assert_eq!(decode(&chars("Z")), Some(vec![]));
    assert_eq!(decode(&chars("1")), Some(vec![]));
    assert_eq!(decode(&chars("ZZ")), Some(vec![0xFF]));
    assert_eq!(decode(&chars("ZZZ")), Some(vec![0xFF]));
    assert_eq!(decode(&chars("ZW")), Some(vec![0xFF]));
}

#[test]
fn round_trip_over_chunk_boundaries() {
    for n in 0..=41 {
        let data = payload(n);
        assert_eq!(decode(&encode(&data)), Some(data));
    }
}

#[test]
fn round_trip_of_short_inputs() {
    for b in 0..=255u8 {
        assert_eq!(decode(&encode(&[b])), Some(vec![b]));
        assert_eq!(decode(&encode(&[b, !b])), Some(vec![b, !b]));
        assert_eq!(decode(&encode(&[!b, 0, b])), Some(vec![!b, 0, b]));
        assert_eq!(decode(&encode(&[b, b, 1, b])), Some(vec![b, b, 1, b]));
    }
}

#[test]
fn encoded_length_is_bits_over_five_rounded_up() {
    let expected = [0usize, 2, 4, 5, 7, 8, 10, 12, 13, 15, 16, 18];
    for (n, want) in expected.iter().enumerate() {
        assert_eq!(encode(&payload(n)).len(), *want);
    }
    for n in 0..200 {
        assert_eq!(encode(&payload(n)).len(), (n * 8 + 4) / 5);
    }
}

#[test]
fn decoded_length_is_bits_over_eight_rounded_down() {
    let expected = [0usize, 0, 1, 1, 2, 3, 3, 4, 5, 5, 6, 6, 7];
    for (m, want) in expected.iter().enumerate() {
        let symbols = vec!['7'; m];
        assert_eq!(decode(&symbols).unwrap().len(), *want);
    }
}

#[test]
fn encoding_uses_only_the_alphabet() {
    let symbols = encode(&payload(100));
    for c in symbols {
        assert!("0123456789ABCDEFGHJKMNPQRSTVWXYZ".contains(c));
    }
}

#[test]
fn decoding_ignores_case() {
    let upper = chars("0123456789ABCDEFGHJKMNPQRSTVWXYZILO");
    let lower = chars("0123456789abcdefghjkmnpqrstvwxyzilo");
    let mixed = chars("0123456789aBcDeFgHjKmNpQrStVwXyZiLo");
    let want = decode(&upper);
    assert!(want.is_some());
    assert_eq!(decode(&lower), want);
    assert_eq!(decode(&mixed), want);
    let encoded = encode(&payload(23));
    let lowered: Vec<char> = encoded.iter().map(|c| c.to_ascii_lowercase()).collect();
    assert_eq!(decode(&lowered), Some(payload(23)));
}

#[test]
fn every_ascii_character_is_classified() {
    for code in 0u8..128 {
        let c = code as char;
        let valid = c.is_ascii_digit() || (c.is_ascii_alphabetic() && c != 'U' && c != 'u');
        assert_eq!(value_of(c).is_some(), valid, "{:?}", c);
        assert_eq!(decode(&[c]).is_some(), valid, "{:?}", c);
    }
}

#[test]
fn characters_outside_ascii_are_rejected() {
    for c in ['\u{0131}', '\u{017F}', '\u{00E9}', '\u{FF11}', '\u{10FFFF}', '\u{0080}'] {
        assert_eq!(value_of(c), None);
        assert_eq!(decode(&[c]), None);
    }
}

#[test]
fn excluded_letter_is_rejected() {
    assert_eq!(decode(&chars("U")), None);
    assert_eq!(decode(&chars("u")), None);
    assert_eq!(decode(&chars("0U0")), None);
}

#[test]
fn one_invalid_symbol_anywhere_fails_the_whole_buffer() {
    let good = chars("CSQPYRK1E8CSQPYRK1E8");
    assert!(decode(&good).is_some());
    for at in 0..good.len() {
        let mut bad = good.clone();
        bad[at] = '-';
        assert_eq!(decode(&bad), None);
    }
    assert_eq!(decode(&chars("00000000,")), None);
    assert_eq!(decode(&chars(" 0")), None);
    assert_eq!(decode(&chars("0\n")), None);
}

#[test]
fn symbols_and_values_are_inverse() {
    let alphabet = chars("0123456789ABCDEFGHJKMNPQRSTVWXYZ");
    assert_eq!(alphabet.len(), 32);
    for v in 0u8..32 {
        let c = symbol_for(v);
        assert_eq!(c, alphabet[v as usize]);
        assert_eq!(c, SYMBOLS[v as usize]);
        assert_eq!(value_of(c), Some(v));
        assert_eq!(value_of(c.to_ascii_lowercase()), Some(v));
    }
}

#[test]
fn inverse_table_matches_lookup() {
    for (slot, entry) in INVERSE.iter().enumerate() {
        let c = (b'0' + slot as u8) as char;
        if *entry == NO_VALUE {
            assert_eq!(value_of(c), None);
        } else {
            assert!(*entry < 32);
            assert_eq!(value_of(c), Some(*entry));
        }
    }
}

#[test]
fn chunks_keep_their_order() {
    let first = [0xF8, 0x3E, 0x0F, 0x83, 0xE0];
    let second = [0x07, 0xC1, 0xF0, 0x7C, 0x1F];
    let mut both = first.to_vec();
    both.extend_from_slice(&second);
    assert_eq!(text(&encode(&both)), "Z0Z0Z0Z00Z0Z0Z0Z");
    assert_eq!(decode(&chars("Z0Z0Z0Z00Z0Z0Z0Z")), Some(both));
}

#[test]
fn lengths_of_small_buffers() {
    let symbols = [0usize, 2, 4, 5, 7, 8, 10, 12, 13, 15, 16];
    for (n, want) in symbols.iter().enumerate() {
        assert_eq!(encoded_length(n), Some(*want));
        assert_eq!(decoded_length(*want), n);
    }
    let bytes = [0usize, 0, 1, 1, 2, 3, 3, 4, 5, 5];
    for (m, want) in bytes.iter().enumerate() {
        assert_eq!(decoded_length(m), *want);
    }
}

#[test]
fn lengths_at_the_machine_limit() {
    let max = usize::MAX as u128;
    assert_eq!(decoded_length(usize::MAX) as u128, max * 5 / 8);
    assert_eq!(encoded_length(usize::MAX), None);
    let most = (max * 5 / 8) as usize;
    assert_eq!(encoded_length(most).map(|len| len as u128), Some((most as u128 * 8 + 4) / 5));
    assert_eq!(encoded_length(most + 1), None);
}
