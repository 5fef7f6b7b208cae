use rs_encoder::base32::Base32;
use rs_encoder::MyError;

#[test]
fn test_base32_encode_decode_string() {
    let test_vector: Vec<(&[u8], &str)> = vec![
        (b"rust", "OJ2XG5A="),
        (b"hello world", "NBSWY3DPEB3W64TMMQ======"),
        (b"hello world", "NBSWY3DPEB3W64TMMQ======"),
        (b"hello worldrst", "NBSWY3DPEB3W64TMMRZHG5A="),
        (
            b"423refdscfcXsdqhello world",
            "GQZDG4TFMZSHGY3GMNMHGZDRNBSWY3DPEB3W64TMMQ======",
        ),
    ];
    for (input, expected) in test_vector {
        let encoded = Base32::encode(input).unwrap();
        assert_eq!(encoded.container, expected);
        let decoded = encoded.decode().unwrap();
        assert_eq!(decoded.as_slice(), input);
    }
}

#[test]
fn test_base32_padding() {
    let input = b"p";
    let encoded = Base32::encode(input).unwrap();
    assert!(encoded.container.ends_with("=="));
}

#[test]
fn test_base32_invalid_decode() {
    let mut invalid_base32 = Base32::new();
    invalid_base32.container = "invalid!".to_string();
    let result = invalid_base32.decode();
    assert!(result.is_err());
}

#[test]
fn test_base32_empty_input() {
    let input: &[u8] = b"";
    let encoded = Base32::encode(input).unwrap();
    let decoded = encoded.decode().unwrap();
    assert!(decoded.is_empty());
}

#[test]
fn test_base32_length_is_multiple_of_framing() {
    for len in 0..40usize {
        let input: Vec<u8> = (0..len).map(|i| (i * 37 + 5) as u8).collect();
        let encoded = Base32::encode(&input).unwrap();
        assert_eq!(encoded.container.len() % 8, 0);
    }
}

#[test]
fn test_base32_alphabet_closure() {
    let input: Vec<u8> = (0..=255u8).collect();
    let encoded = Base32::encode(&input).unwrap();
    for c in encoded.container.chars() {
        assert!(c == '=' || c.is_ascii_uppercase() || ('2'..='7').contains(&c));
    }
}

#[test]
fn test_base32_decode_error_variant() {
    let mut invalid = Base32::new();
    invalid.container = "abc".to_string();
    assert_eq!(invalid.decode(), Err(MyError::DecodingError));
}

#[test]
fn test_base32_append_and_pad() {
    let mut b = Base32::new();
    b.append('O').unwrap();
    b.append('J').unwrap();
    assert_eq!(b.container, "OJ");
    b.pad();
    assert_eq!(b.container, "OJ======");
    assert_eq!(Base32::get_chunk_size(), 5);
    assert_eq!(Base32::get_byte_size(), 8);
    assert_eq!(b.get_container(), "OJ======");
}

#[test]
fn test_base32_round_trip_various_lengths() {
    for len in 0..33usize {
        let input: Vec<u8> = (0..len).map(|i| (i * 13 + 200) as u8).collect();
        let encoded = Base32::encode(&input).unwrap();
        let decoded = encoded.decode().unwrap();
        assert_eq!(decoded, input);
    }
}

#[test]
fn test_base32_display_and_table() {
    let encoded = Base32::encode(b"rust").unwrap();
    assert_eq!(encoded.display_string(), "(OJ2XG5A=)");
    let table = Base32::get_encode_table();
    assert_eq!(table.len(), 32);
    assert_eq!(table[0], 'A');
    assert_eq!(table[25], 'Z');
    assert_eq!(table[26], '2');
    assert_eq!(table[31], '7');
}

#[test]
fn test_base32_default_is_empty() {
    let b = Base32::default();
    assert_eq!(b.container, "");
}
