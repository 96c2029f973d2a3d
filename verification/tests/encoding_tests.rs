use rustblr::encoding::{percent_decode, percent_encode};

#[test]
fn encode_keeps_unreserved_bytes() {
    let s = b"AZaz09-._~";
    assert_eq!(percent_encode(s), s.to_vec());
}

#[test]
fn encode_escapes_reserved_bytes() {
    assert_eq!(percent_encode(b"hello world"), b"hello%20world".to_vec());
    assert_eq!(percent_encode(b"a&b=c"), b"a%26b%3Dc".to_vec());
    assert_eq!(percent_encode(b"http://x/"), b"http%3A%2F%2Fx%2F".to_vec());
    assert_eq!(percent_encode(b"%"), b"%25".to_vec());
    assert_eq!(percent_encode(b""), b"".to_vec());
}

#[test]
fn encode_uses_uppercase_hex_and_utf8_bytes() {
    // U+00E9 is the two UTF-8 bytes C3 A9
    assert_eq!(percent_encode("é".as_bytes()), b"%C3%A9".to_vec());
}

#[test]
fn decode_recovers_encoded_input() {
    let cases: Vec<&[u8]> = vec![
        b"",
        b"plain",
        b"hello world",
        b"a&b=c%d",
        b"\x00\xff\x10AZ",
    ];
    for s in cases {
        let enc = percent_encode(s);
        assert_eq!(percent_decode(&enc), Some(s.to_vec()));
    }
}

#[test]
fn decode_accepts_lowercase_hex() {
    assert_eq!(percent_decode(b"a%2fb"), Some(b"a/b".to_vec()));
    assert_eq!(percent_decode(b"a%2Fb"), Some(b"a/b".to_vec()));
}

#[test]
fn parameter_string_round_trip_recovers_pairs() {
    let pairs: Vec<(&[u8], &[u8])> = vec![
        (b"plain", b"value"),
        (b"k=with&seps", b"v=with&seps"),
        (b"spaced key", b"%already escaped%"),
    ];
    let mut joined: Vec<u8> = Vec::new();
    for (i, (k, v)) in pairs.iter().enumerate() {
        if i > 0 {
            joined.push(b'&');
        }
        joined.extend_from_slice(&percent_encode(k));
        joined.push(b'=');
        joined.extend_from_slice(&percent_encode(v));
    }
    let split = rustblr::query::split_query(&joined);
    assert_eq!(split.len(), pairs.len());
    for (got, (k, v)) in split.iter().zip(pairs.iter()) {
        assert_eq!(percent_decode(&got.0), Some(k.to_vec()));
        assert_eq!(percent_decode(&got.1), Some(v.to_vec()));
    }
}

#[test]
fn decode_rejects_malformed_escapes() {
    assert_eq!(percent_decode(b"abc%"), None);
    assert_eq!(percent_decode(b"abc%2"), None);
    assert_eq!(percent_decode(b"abc%zz"), None);
}
