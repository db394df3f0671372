use cerebro_gateway::codec::decode_base64;
use cerebro_gateway::codec::decode_base64_char;
use cerebro_gateway::codec::encode_base64;
use cerebro_gateway::GatewayError;

#[test]
fn encode_empty_is_empty() {
    assert_eq!(encode_base64(b""), "");
}

#[test]
fn encode_known_vectors() {
    assert_eq!(encode_base64(b"f"), "Zg==");
    assert_eq!(encode_base64(b"fo"), "Zm8=");
    assert_eq!(encode_base64(b"foo"), "Zm9v");
    assert_eq!(encode_base64(b"foob"), "Zm9vYg==");
    assert_eq!(encode_base64(b"fooba"), "Zm9vYmE=");
    assert_eq!(encode_base64(b"foobar"), "Zm9vYmFy");
}

#[test]
fn round_trip_small_lengths() {
    for len in [0usize, 1, 2, 3, 4, 100] {
        let data: Vec<u8> = (0..len).map(|i| (i * 37 % 256) as u8).collect();
        let encoded = encode_base64(&data);
        let decoded = decode_base64(&encoded).expect("canonical text must decode");
        assert_eq!(decoded, data, "round trip failed for length {len}");
    }
}

#[test]
fn round_trip_assorted_lengths() {
    for len in [5usize, 7, 16, 31, 57, 255] {
        let data: Vec<u8> = (0..len).map(|i| (i * i % 251) as u8).collect();
        let decoded = decode_base64(&encode_base64(&data)).unwrap();
        assert_eq!(decoded, data);
    }
}

#[test]
fn round_trip_all_byte_values() {
    let data: Vec<u8> = (0..=255u8).collect();
    assert_eq!(decode_base64(&encode_base64(&data)).unwrap(), data);
}

#[test]
fn decode_skips_whitespace() {
    assert_eq!(decode_base64("Zm 9v\n").unwrap(), b"foo".to_vec());
    assert_eq!(decode_base64("\tZg\r\n==").unwrap(), b"f".to_vec());
}

#[test]
fn decode_rejects_bad_length() {
    assert!(matches!(decode_base64("abc"), Err(GatewayError::EncodingError)));
    assert!(matches!(decode_base64("Zm9va"), Err(GatewayError::EncodingError)));
}

#[test]
fn decode_rejects_out_of_alphabet() {
    assert!(matches!(decode_base64("Zm9$"), Err(GatewayError::EncodingError)));
    assert!(matches!(decode_base64("!!!!"), Err(GatewayError::EncodingError)));
    assert!(matches!(decode_base64("Zm9v\u{e9}xyz"), Err(GatewayError::EncodingError)));
}

#[test]
fn decode_rejects_misplaced_padding() {
    assert!(matches!(decode_base64("=m9v"), Err(GatewayError::EncodingError)));
    assert!(matches!(decode_base64("Z=9v"), Err(GatewayError::EncodingError)));
    assert!(matches!(decode_base64("Zm=v"), Err(GatewayError::EncodingError)));
}

#[test]
fn decode_empty_is_empty() {
    assert_eq!(decode_base64("").unwrap(), Vec::<u8>::new());
    assert_eq!(decode_base64("  \n").unwrap(), Vec::<u8>::new());
}

#[test]
fn symbol_values() {
    assert_eq!(decode_base64_char(b'A'), Some(0));
    assert_eq!(decode_base64_char(b'Z'), Some(25));
    assert_eq!(decode_base64_char(b'a'), Some(26));
    assert_eq!(decode_base64_char(b'z'), Some(51));
    assert_eq!(decode_base64_char(b'0'), Some(52));
    assert_eq!(decode_base64_char(b'9'), Some(61));
    assert_eq!(decode_base64_char(b'+'), Some(62));
    assert_eq!(decode_base64_char(b'/'), Some(63));
    assert_eq!(decode_base64_char(b'='), None);
    assert_eq!(decode_base64_char(b' '), None);
}
