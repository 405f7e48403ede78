use base64::Engine;
use dri_tracker::codec::{decode, encode, DecodeError};

fn list(names: &[&str]) -> Vec<String> {
    names.iter().map(|s| s.to_string()).collect()
}

#[test]
fn encode_example_payload() {
    // "Amy\nBob" -> base64 "QW15CkJvYg==" -> percent-encoded padding.
    let token = encode(&list(&["Amy", "Bob"]));
    assert_eq!(token, "QW15CkJvYg%3D%3D");
}

#[test]
fn round_trip_abc() {
    let names = list(&["A", "B", "C"]);
    let token = encode(&names);
    let back = decode(&token).expect("canonical token must decode");
    assert_eq!(back, names);
}

#[test]
fn round_trip_various_lists() {
    let cases: Vec<Vec<String>> = vec![
        list(&[]),
        list(&["solo"]),
        list(&["Amy", "Bob"]),
        list(&["", ""]),
        list(&["a", "", "b"]),
        list(&["Ada Lovelace", "Grace 🚀", "José", "Алиса", "山田太郎"]),
        list(&["spaces  inside", "  leading", "trailing  ", "sym&?=%+/bols"]),
        (0..20).map(|i| format!("person-{}", i)).collect(),
    ];
    for names in cases {
        let token = encode(&names);
        let back = decode(&token).expect("canonical token must decode");
        assert_eq!(back, names, "round trip failed for {:?}", names);
    }
}

#[test]
fn round_trip_generated_lists() {
    // A deterministic pseudo-random walk over lists of 0 to 20 short
    // ASCII and Unicode strings.
    let alphabet: Vec<char> = "abcXYZ 09-_.,é añ中🦀".chars().collect();
    let mut seed: u64 = 0x2545_f491_4f6c_dd1d;
    let mut next = |bound: u64| {
        seed ^= seed << 13;
        seed ^= seed >> 7;
        seed ^= seed << 17;
        seed % bound
    };
    for _ in 0..100 {
        let count = next(21) as usize;
        let mut names: Vec<String> = Vec::new();
        for _ in 0..count {
            let len = next(8) as usize;
            let mut name = String::new();
            for _ in 0..len {
                name.push(alphabet[next(alphabet.len() as u64) as usize]);
            }
            names.push(name);
        }
        if names == vec![String::new()] {
            // The one list that cannot ride in a token: it encodes like the
            // empty list.
            continue;
        }
        let token = encode(&names);
        assert_eq!(decode(&token).unwrap(), names, "round trip failed for {:?}", names);
    }
}

#[test]
fn single_empty_name_collapses_to_empty_list() {
    // The one accepted exception: a lone empty name joins to the empty text,
    // which stands for the empty list.
    let token = encode(&list(&[""]));
    assert_eq!(token, "");
    assert_eq!(decode(&token).unwrap(), list(&[]));
}

#[test]
fn decode_empty_token_is_empty_list() {
    assert_eq!(decode("").unwrap(), Vec::<String>::new());
}

#[test]
fn decode_accepts_lowercase_percent_digits() {
    let back = decode("QW15CkJvYg%3d%3d").expect("lowercase hex is fine");
    assert_eq!(back, list(&["Amy", "Bob"]));
}

#[test]
fn decode_rejects_bad_base64() {
    assert_eq!(decode("!!!"), Err(DecodeError::InvalidBase64));
    assert_eq!(decode("%ZZ"), Err(DecodeError::InvalidBase64));
    // A truncated percent escape passes through percent-decoding unchanged
    // and then fails the base64 step.
    assert_eq!(decode("QW15CkJvYg%3"), Err(DecodeError::InvalidBase64));
    // Missing padding is not canonical for the standard engine.
    assert_eq!(decode("QW15CkJvYg"), Err(DecodeError::InvalidBase64));
}

#[test]
fn decode_rejects_invalid_utf8() {
    let bad = base64::engine::general_purpose::STANDARD.encode([0xffu8, 0xfe, 0x01]);
    // The base64 text itself is alphanumeric apart from padding; percent-encode
    // the padding by hand so the token looks like one of ours.
    let token = bad.replace('=', "%3D");
    assert_eq!(decode(&token), Err(DecodeError::InvalidUtf8));
}

#[test]
fn tokens_are_url_safe() {
    let token = encode(&list(&["name with spaces", "sym&?=#bols", "émile"]));
    assert!(token.chars().all(|c| c.is_ascii_alphanumeric() || c == '%'));
}
