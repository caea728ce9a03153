use orion_utils::config::{comma_split, Key, SecretKeyError};

#[test]
fn key_reads_hex_in_either_case() {
    let text = "00ff10AB".repeat(8);
    let key = Key::from_str(&text).unwrap();
    let mut expected = [0u8; 32];
    for i in 0..8 {
        expected[4 * i] = 0x00;
        expected[4 * i + 1] = 0xff;
        expected[4 * i + 2] = 0x10;
        expected[4 * i + 3] = 0xab;
    }
    assert_eq!(key.to_bytes(), expected);
    let parsed: Key = text.parse().unwrap();
    assert_eq!(parsed.to_bytes(), expected);
}

#[test]
fn key_of_wrong_length_is_refused() {
    assert_eq!(Key::from_str("abcd").unwrap_err(), SecretKeyError::InvalidLength(4));
    assert_eq!(Key::from_str(&"0".repeat(65)).unwrap_err(), SecretKeyError::InvalidLength(65));
}

#[test]
fn key_with_non_hex_is_refused() {
    let mut text = "0".repeat(63);
    text.push('g');
    assert_eq!(Key::from_str(&text).unwrap_err(), SecretKeyError::InvalidHex);
}

#[test]
fn parsing_a_key_refuses_as_reading_one_does() {
    assert_eq!("abcd".parse::<Key>().unwrap_err(), SecretKeyError::InvalidLength(4));
    let mut text = "1".repeat(63);
    text.push('x');
    assert_eq!(text.parse::<Key>().unwrap_err(), SecretKeyError::InvalidHex);
}

#[test]
fn lists_split_at_every_comma() {
    assert_eq!(comma_split(b"a,b,,c"), vec![&b"a"[..], &b"b"[..], &b""[..], &b"c"[..]]);
    assert_eq!(comma_split(b""), vec![&b""[..]]);
    assert_eq!(comma_split(b"x,"), vec![&b"x"[..], &b""[..]]);
    assert_eq!(comma_split("é,ü".as_bytes()), vec!["é".as_bytes(), "ü".as_bytes()]);
}
