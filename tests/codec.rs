use weatherd::{convert_char, decode, deconvert_char, encode};

#[test]
fn encode_hello_exact_bytes() {
    let expected: Vec<u8> = vec![
        177, 205, 24, 70, 62, 157, 4, 84, 51, 204, 4, 0, 0, 0, 0, 0, 0, 0, 0, 0, 0, 0, 0, 0, 0, 0,
        0, 0, 0, 0, 0, 0, 0, 0, 0, 0,
    ];
    let r = encode("hello");
    assert_eq!(r.len(), 36);
    assert!(r[24..].iter().all(|b| *b == 0));
    assert_eq!(r, expected);
}

#[test]
fn encode_is_always_36_bytes() {
    let long = "x".repeat(100);
    for s in ["", "a", "hello", "0123456789abcdefghijklmnopqrstuvwxyz", "äöü€", long.as_str()] {
        let r = encode(s);
        assert_eq!(r.len(), 36);
        assert!(r[24..].iter().all(|b| *b == 0));
    }
}

#[test]
fn encode_symbol_key_uses_first_32_characters() {
    let s = "0123456789abcdefghijklmnopqrstuvwxyz";
    let expected: Vec<u8> = vec![
        248, 88, 241, 180, 69, 138, 43, 16, 4, 2, 0, 0, 248, 135, 249, 211, 28, 167, 34, 114, 40,
        139, 4, 0, 0, 0, 0, 0, 0, 0, 0, 0, 0, 0, 0, 0,
    ];
    assert_eq!(encode(s), expected);
    assert_eq!(encode(s), encode(&s[..32]));
    assert_eq!(encode(s), encode(s));
}

#[test]
fn digit_mapping_round_trips() {
    for d in 0u32..=36 {
        assert_eq!(convert_char(deconvert_char(d)), d);
    }
    assert_eq!(deconvert_char(0), '0');
    assert_eq!(deconvert_char(9), '9');
    assert_eq!(deconvert_char(10), 'a');
    assert_eq!(deconvert_char(35), 'z');
    assert_eq!(deconvert_char(36), '=');
}

#[test]
fn convert_char_table() {
    assert_eq!(convert_char('0'), 0);
    assert_eq!(convert_char('7'), 7);
    assert_eq!(convert_char('a'), 10);
    assert_eq!(convert_char('z'), 35);
    assert_eq!(convert_char('='), 36);
    assert_eq!(convert_char('#'), 36);
    assert_eq!(convert_char('A'), 36);
    assert_eq!(convert_char('é'), 36);
}

#[test]
fn encode_empty_is_all_zero() {
    let r = encode("");
    assert_eq!(r, vec![0u8; 36]);
    assert_eq!(r, encode("00000000000000000000000000000000"));
}

#[test]
fn encode_ignores_case() {
    assert_eq!(encode("HELLOWORLD"), encode("helloworld"));
    assert_eq!(encode("HelloWorld"), encode("helloworld"));
    assert_eq!(
        encode("ABCDEFGHIJKLMNOPQRSTUVWXYZ0123456789"),
        encode("abcdefghijklmnopqrstuvwxyz0123456789")
    );
}

#[test]
fn encode_sentinel_collides() {
    assert_eq!(encode("ab=cd"), encode("ab#cd"));
    assert_eq!(encode("=="), encode("!?"));
    assert_ne!(encode("ab=cd"), encode("ab0cd"));
}

#[test]
fn decode_zero_blob() {
    assert_eq!(decode(vec![0u8; 36]), "00000000000000000000000000000000");
}

#[test]
fn decode_of_encoded_hello() {
    assert_eq!(decode(encode("hello")), "00000000000000000000000000000000");
}

#[test]
fn decode_exact_values() {
    let b: Vec<u8> = (1u8..=24).collect();
    assert_eq!(decode(b), "qa0xgwv5u025wgicb2rfy75w83elkzjs");
    assert_eq!(decode(vec![255u8; 25]), "=idy60dbhcnxsn9kq=idy60dbhcnxsn9");
}

#[test]
fn decode_is_always_32_characters() {
    for n in [24usize, 25, 35, 36, 48, 100] {
        let b: Vec<u8> = (0..n).map(|i| (i * 37 % 256) as u8).collect();
        assert_eq!(decode(b).chars().count(), 32);
    }
}

#[test]
fn encode_folds_kelvin_sign_like_k() {
    let r = encode("\u{212A}");
    assert_eq!(r[0], 132);
    assert_eq!(r, encode("k"));
    assert_eq!(encode("\u{212A}ELVIN"), encode("kelvin"));
}

#[test]
fn encode_keeps_first_32_lowered_characters() {
    let expected: Vec<u8> = vec![
        110, 235, 75, 73, 192, 53, 3, 119, 174, 59, 5, 0, 0, 0, 0, 0, 0, 0, 0, 0, 0, 0, 0, 0, 0, 0,
        0, 0, 0, 0, 0, 0, 0, 0, 0, 0,
    ];
    assert_eq!(encode("\u{130}"), expected);
    assert_eq!(encode("\u{130}"), encode("i="));
    let long = "\u{130}".repeat(20);
    let r = encode(&long);
    assert_eq!(r.len(), 36);
    assert!(r[24..].iter().all(|b| *b == 0));
    assert_eq!(r, encode(&"i=".repeat(16)));
}
