use rs_encoder::base85::Base85;
use rs_encoder::MyError;

#[test]
fn test_new_base85_is_empty() {
    let b = Base85::new();
    assert_eq!(b.container, "");
}

#[test]
fn test_new_base85_debug_default() {
    let b1 = Base85::new();
    let b2 = Base85::default();
    assert_eq!(b1.container, b2.container);
}

#[test]
fn test_base85_encode_decode() {
    let test_vector: Vec<(&[u8], &str)> = vec![
        (b"hello world", "BOu!rD]j7BEbo7"),
        (b"Base85 encoding", "6=FqH3&MgiDI[TqBl7P"),
        (b"Base85", "6=FqH3&L"),
        (b"Base851", "6=FqH3&ND"),
        (b"Base8512", "6=FqH3&NEG"),
        (b"3", "1B"),
        (b"", ""),
        (&[0xFF_u8; 7], "s8W-!s8W*"),
        (&[0x00, 0x01, 0x41, 0xFF], "!!,Cc"),
        (&[0x00, 0x01, 0x41, 0xFF, 0x00, 0x00, 0x00, 0x00], "!!,Ccz"),
        (
            &[
                0x00, 0x01, 0x41, 0xFF, 0x00, 0x00, 0x00, 0x00, 0x00, 0x00, 0x12, 0x32, 0x43,
                0x21,
            ],
            "!!,Ccz!!!We6Ql",
        ),
    ];
    for (input, expected) in test_vector {
        let encoded = Base85::encode(input).unwrap();
        println!("Expected: {}, Encoded: {}", expected, encoded.container);
        let decoded = encoded.decode().unwrap();
        assert_eq!(input, decoded);
    }
}

#[test]
fn test_base85_decode() {
    let test_vector: Vec<(&str, &[u8])> = vec![
        ("k44rf", &[0xe6, 0xf2, 0x9a, 0x26]),
        ("", &[]),
        ("Y", &[]),
        (
            "k44rfYXCfd",
            &[0xe6, 0xf2, 0x9a, 0x26, 0xb0, 0x44, 0x42, 0x61],
        ),
        ("6=FqH3&L", b"Base85"),
        ("3&L", b"85"),
        ("s8W-!s8W*", &[0xFF_u8; 7]),
        (
            "!!,Ccz!!!We6Ql",
            &[
                0x00, 0x01, 0x41, 0xFF, 0x00, 0x00, 0x00, 0x00, 0x00, 0x00, 0x12, 0x32, 0x43,
                0x21,
            ],
        ),
        ("!!,Ccz", &[0x00, 0x01, 0x41, 0xFF, 0x00, 0x00, 0x00, 0x00]),
    ];
    for (input, expected) in test_vector {
        let mut encoded = Base85::new();
        encoded.container = input.to_string();
        let decoded = encoded.decode().unwrap();
        println!("Expected: {:?}, Decoded: {:?}", expected, decoded);
        assert_eq!(decoded, expected);
    }
}

#[test]
fn test_base85_known_vectors() {
    let test_vector: Vec<(&[u8], &str)> = vec![
        (b"hello world", "BOu!rD]j7BEbo7"),
        (&[0x00, 0x01, 0x41, 0xFF], "!!,Cc"),
        (&[0x00, 0x01, 0x41, 0xFF, 0x00, 0x00, 0x00, 0x00], "!!,Ccz"),
    ];
    for (input, expected) in test_vector {
        let encoded = Base85::encode(input).unwrap();
        assert_eq!(encoded.container, expected);
    }
}

#[test]
fn test_base85_zero_run_compression() {
    let encoded = Base85::encode(&[0x00, 0x00, 0x00, 0x00]).unwrap();
    assert_eq!(encoded.container, "z");
    let mut z = Base85::new();
    z.container = "z".to_string();
    assert_eq!(z.decode().unwrap(), vec![0u8; 4]);
}

#[test]
fn test_base85_rejects_unknown_symbol() {
    let mut invalid = Base85::new();
    invalid.container = "ab cd".to_string();
    assert_eq!(invalid.decode(), Err(MyError::DecodingError));
}

#[test]
fn test_base85_rejects_z_inside_group() {
    let mut invalid = Base85::new();
    invalid.container = "!z".to_string();
    assert_eq!(invalid.decode(), Err(MyError::DecodingError));
}

#[test]
fn test_base85_round_trip_various_lengths() {
    for len in 0..33usize {
        let input: Vec<u8> = (0..len).map(|i| (i * 31 + 17) as u8).collect();
        let encoded = Base85::encode(&input).unwrap();
        let decoded = encoded.decode().unwrap();
        assert_eq!(decoded, input);
    }
}
