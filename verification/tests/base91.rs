use hf_mount::base91::{
    decode, encode, encoded_len_upper_bound, has_symbol, unpack, Error, ALPHABET,
};

#[test]
fn alphabet_is_well_formed() {
    assert_eq!(ALPHABET.len(), 91);
    let mut seen = [false; 256];
    for &c in ALPHABET.iter() {
        assert!(c != 0 && c < 128, "alphabet must be ASCII and non-NUL");
        assert!(!seen[c as usize], "alphabet has a duplicate character");
        seen[c as usize] = true;
    }
    // The filesystem variant must drop '/' (path separator) for '\''.
    assert!(!ALPHABET.contains(&b'/'));
    assert!(ALPHABET.contains(&b'\''));
}

#[test]
fn empty_round_trips() {
    assert_eq!(encode(&[]), "");
    assert_eq!(decode("").unwrap(), Vec::<u8>::new());
}

#[test]
fn round_trips_across_lengths() {
    // Deterministic xorshift so any failure reproduces.
    let mut state: u64 = 0x9e37_79b9_7f4a_7c15;
    let mut next = || {
        state ^= state << 13;
        state ^= state >> 7;
        state ^= state << 17;
        state
    };
    for len in 0..=300usize {
        let input: Vec<u8> = (0..len).map(|_| (next() & 0xff) as u8).collect();
        let encoded = encode(&input);
        assert!(
            encoded.len() <= encoded_len_upper_bound(len),
            "encoded length exceeds the upper bound at len {len}"
        );
        assert!(
            !encoded.as_bytes().contains(&b'/'),
            "encoded output contains '/' at len {len}"
        );
        let decoded = decode(&encoded).expect("decode");
        assert_eq!(decoded, input, "round-trip mismatch at len {len}");
    }
}

#[test]
fn full_byte_range_is_filesystem_safe() {
    let input: Vec<u8> = (0..=255).collect();
    let encoded = encode(&input);
    for &c in encoded.as_bytes() {
        assert!(c != b'/' && c != 0);
    }
    assert_eq!(decode(&encoded).unwrap(), input);
}

#[test]
fn rejects_characters_outside_the_alphabet() {
    assert_eq!(decode("AB/CD"), Err(Error::InvalidCharacter));
    assert_eq!(decode("A B"), Err(Error::InvalidCharacter));
}

#[test]
fn known_encodings() {
    assert_eq!(encode(&[0]), "AA");
    assert_eq!(encode(&[1]), "BA");
    assert_eq!(encode(&[90]), "\"A");
    assert_eq!(encode(&[91]), "AB");
    assert_eq!(encode(&[255]), "'C");
    assert_eq!(encode(&[0, 0]), "AAA");
}

#[test]
fn decoding_what_was_not_encoded() {
    // A lone digit holds a byte too, but that byte is written with two.
    assert_eq!(encode(&[0]), "AA");
    assert_eq!(unpack("A").unwrap(), vec![0]);
    assert_eq!(decode("A"), Err(Error::InvalidPadding));
}

#[test]
fn decoded_text_is_what_was_encoded() {
    let mut accepted = 0;
    for &a in ALPHABET.iter() {
        for &b in ALPHABET.iter() {
            for text in [
                String::from_utf8(vec![a]).unwrap(),
                String::from_utf8(vec![a, b]).unwrap(),
                String::from_utf8(vec![b'A', a, b]).unwrap(),
            ] {
                if let Ok(bytes) = decode(&text) {
                    assert_eq!(encode(&bytes), text);
                    accepted += 1;
                }
            }
        }
    }
    assert!(accepted > 0);
}

#[test]
fn rejects_trailing_bits() {
    assert_eq!(decode("\"\""), Err(Error::InvalidPadding));
    assert_eq!(decode("\"\"\""), Err(Error::InvalidPadding));
    assert_eq!(decode("\"\"A").unwrap(), vec![0x58, 0x20]);
}

#[test]
fn upper_bound_of_encoded_length() {
    assert_eq!(encoded_len_upper_bound(0), 0);
    assert_eq!(encoded_len_upper_bound(1), encode(&[255]).len());
    for len in [2usize, 13, 26, 100, 206] {
        assert!(encode(&vec![0u8; len]).len() <= encoded_len_upper_bound(len));
        assert!(encode(&vec![255u8; len]).len() <= encoded_len_upper_bound(len));
    }
}

#[test]
fn upper_bound_is_attained() {
    for n in 0usize..=260 {
        let longest = encode(&vec![255u8; n]).len();
        let left = 8 * n % 13;
        if left == 0 || left >= 7 {
            assert_eq!(longest, encoded_len_upper_bound(n), "{n} bytes");
        } else {
            assert_eq!(longest + 1, encoded_len_upper_bound(n), "{n} bytes");
        }
    }
    assert_eq!(encoded_len_upper_bound(2), 4);
    assert_eq!(encode(&[255, 255]).len(), 3);
}

#[test]
fn symbols_are_those_of_the_alphabet() {
    for b in 0u8..=255 {
        assert_eq!(has_symbol(b as char), ALPHABET.contains(&b));
    }
    assert!(!has_symbol('\u{20ac}'));
}

#[test]
fn base91_error_messages() {
    assert_eq!(Error::InvalidCharacter.to_string(), "invalid base91 character");
    assert_eq!(Error::InvalidPadding.to_string(), "invalid base91 padding");
}
