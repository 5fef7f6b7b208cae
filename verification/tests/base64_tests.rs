use rs_encoder::base64::Base64;
use rs_encoder::MyError;

#[test]
#[allow(unused_variables)]
fn base64_test_printout() {
    let x = b"a213f444vfvdfvdvdscvdf34r023";
    let y = [0xfffffff, 0xfffffff, 4, 5243243, 65];
    println!("encoded x {:}", Base64::encode(x).unwrap().display_string());
    println!(
        "decode x {:?}",
        Base64::encode(x).unwrap().decode().unwrap().as_slice()
    );
}

#[test]
fn test_base64_display_and_table() {
    let encoded = Base64::encode(b"base64").unwrap();
    assert_eq!(encoded.display_string(), "(YmFzZTY0)");
    let table = Base64::get_encode_table();
    assert_eq!(table.len(), 64);
    assert_eq!(table[0], 'A');
    assert_eq!(table[26], 'a');
    assert_eq!(table[52], '0');
    assert_eq!(table[62], '+');
    assert_eq!(table[63], '/');
}

#[test]
fn test_base64_encode_decode_string() {
    let test_vector: Vec<(&[u8], &str)> = vec![
        (b"rust", "cnVzdA=="),
        (b"hello world", "aGVsbG8gd29ybGQ="),
        (b"base64", "YmFzZTY0"),
        (b"test", "dGVzdA=="),
        (b"test123", "dGVzdDEyMw=="),
        (b"test1234", "dGVzdDEyMzQ="),
        (b"test12341231", "dGVzdDEyMzQxMjMx"),
        (b"", ""),
        (b"r323r", "cjMyM3I="),
    ];
    for (input, expected) in test_vector {
        let encoded = Base64::encode(input).unwrap();
        assert_eq!(encoded.container, expected);
        let decoded = encoded.decode().unwrap();
        assert_eq!(decoded.as_slice(), input);
    }
}

#[test]
fn test_base64_padding() {
    let input = b"p";
    let encoded = Base64::encode(input).unwrap();
    assert!(encoded.container.ends_with("=="));
}

#[test]
fn test_base64_invalid_decode() {
    let mut invalid_base64 = Base64::new();
    invalid_base64.container = "invalid!".to_string();
    let result = invalid_base64.decode();
    assert!(result.is_err());
}

#[test]
fn test_base64_empty_input() {
    let input: &[u8] = b"";
    let encoded = Base64::encode(input).unwrap();
    let decoded = encoded.decode().unwrap();
    assert!(decoded.is_empty());
}

#[test]
fn test_base64_length_is_multiple_of_framing() {
    for len in 0..40usize {
        let input: Vec<u8> = (0..len).map(|i| (i * 41 + 11) as u8).collect();
        let encoded = Base64::encode(&input).unwrap();
        assert_eq!(encoded.container.len() % 4, 0);
    }
}

#[test]
fn test_base64_alphabet_closure() {
    let input: Vec<u8> = (0..=255u8).collect();
    let encoded = Base64::encode(&input).unwrap();
    for c in encoded.container.chars() {
        assert!(c == '=' || c.is_ascii_alphanumeric() || c == '+' || c == '/');
    }
}

#[test]
fn test_base64_decode_error_variant() {
    let mut invalid = Base64::new();
    invalid.container = "ab-c".to_string();
    assert_eq!(invalid.decode(), Err(MyError::DecodingError));
}

#[test]
fn test_base64_append_and_pad() {
    let mut b = Base64::new();
    b.append('c').unwrap();
    b.append('n').unwrap();
    assert_eq!(b.container, "cn");
    b.pad();
    assert_eq!(b.container, "cn==");
    assert_eq!(Base64::get_chunk_size(), 6);
    assert_eq!(Base64::get_byte_size(), 8);
    assert_eq!(b.get_container(), "cn==");
}

#[test]
fn test_base64_round_trip_various_lengths() {
    for len in 0..33usize {
        let input: Vec<u8> = (0..len).map(|i| (i * 7 + 100) as u8).collect();
        let encoded = Base64::encode(&input).unwrap();
        let decoded = encoded.decode().unwrap();
        assert_eq!(decoded, input);
    }
}

#[test]
fn test_base64_default_is_empty() {
    let b = Base64::default();
    assert_eq!(b.container, "");
}
