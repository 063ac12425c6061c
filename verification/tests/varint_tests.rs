use perp_signal_hft::format::BinaryFormatError;
use perp_signal_hft::varint::{decode_signed, decode_unsigned, encode_signed, encode_unsigned};

#[test]
fn test_varint_encoding_decoding() {
    let mut buffer = Vec::new();

    // Values that are powers of 2 and edge cases
    let unsigned_test_values = vec![
        0u64,
        127u64,     // 1-byte limit
        128u64,     // 2-byte transition point
        16384u64,   // 3-byte transition point
        2097151u64, // 4-byte transition
        u64::MAX,   // Max unsigned value (64 bits)
    ];

    for value in unsigned_test_values {
        buffer.clear();
        encode_unsigned(value, &mut buffer);
        let (decoded, _) = decode_unsigned(&buffer, 0).unwrap();
        assert_eq!(decoded, value, "Unsigned varint failed for value: {}", value);
    }

    // Assert specific binary encodings for some unsigned values
    buffer.clear();
    encode_unsigned(127, &mut buffer);
    assert_eq!(buffer, vec![0x7F]); // Single byte for 127

    buffer.clear();
    encode_unsigned(128, &mut buffer);
    assert_eq!(buffer, vec![0x80, 0x01]); // Two bytes for 128

    buffer.clear();
    encode_unsigned(300, &mut buffer);
    assert_eq!(buffer, vec![0xAC, 0x02]); // Two bytes for 300

    // Test values including edge cases, negatives, and zero
    let signed_test_values = vec![
        0i64,
        1i64,
        -1i64,    // Smallest negative
        63i64,    // Zigzag-encoded as 126
        -64i64,   // Zigzag-encoded as 127
        64i64,    // Zigzag-encoded as 128 (2-byte transition)
        1023i64,  // Zigzag-encoded as 2046
        -1024i64, // Zigzag-encoded as 2047
        i64::MAX, // Maximum possible i64
        i64::MIN, // Most negative i64 (edge case)
    ];

    for value in signed_test_values {
        buffer.clear();
        encode_signed(value, &mut buffer);
        let (decoded, _) = decode_signed(&buffer, 0).unwrap();
        assert_eq!(decoded, value, "Signed varint failed for value: {}", value);
    }

    // Assert specific binary encodings for some signed values
    buffer.clear();
    encode_signed(0, &mut buffer);
    assert_eq!(buffer, vec![0x00]); // Special case: 0

    buffer.clear();
    encode_signed(-1, &mut buffer);
    assert_eq!(buffer, vec![0x01]); // Negative numbers zigzag encoded correctly

    buffer.clear();
    encode_signed(1, &mut buffer);
    assert_eq!(buffer, vec![0x02]);

    buffer.clear();
    encode_signed(-2, &mut buffer);
    assert_eq!(buffer, vec![0x03]); // Negative value -2

    buffer.clear();
    encode_signed(i64::MAX, &mut buffer);
    assert_eq!(buffer.len(), 10); // Maximum i64 uses 10 bytes in varint encoding

    buffer.clear();
    encode_signed(i64::MIN, &mut buffer);
    assert_eq!(buffer.len(), 10); // Minimum i64 also uses 10 bytes
}

#[test]
fn varint_written_count_matches_buffer() {
    let mut buffer = Vec::new();
    let written = encode_unsigned(300, &mut buffer);
    assert_eq!(written, 2);
    assert_eq!(buffer.len(), 2);
    let written = encode_signed(-2, &mut buffer);
    assert_eq!(written, 1);
    assert_eq!(buffer.len(), 3);
}

#[test]
fn varint_round_trip_mid_buffer() {
    // decode from a position other than zero, followed by trailing bytes
    let mut buffer = vec![0xEEu8];
    encode_unsigned(16384, &mut buffer);
    buffer.push(0xEE);
    let (v, next) = decode_unsigned(&buffer, 1).unwrap();
    assert_eq!(v, 16384);
    assert_eq!(next, 4);
}

#[test]
fn varint_truncated_input_is_insufficient() {
    // continuation bit set but the buffer ends
    let buffer = vec![0x80u8];
    assert_eq!(
        decode_unsigned(&buffer, 0),
        Err(BinaryFormatError::InsufficientData)
    );
    // empty input
    let empty: Vec<u8> = Vec::new();
    assert_eq!(
        decode_unsigned(&empty, 0),
        Err(BinaryFormatError::InsufficientData)
    );
}

#[test]
fn varint_overlong_input_is_insufficient() {
    // ten continuation bytes never terminate a 64-bit varint
    let buffer = vec![0x80u8; 10];
    assert_eq!(
        decode_unsigned(&buffer, 0),
        Err(BinaryFormatError::InsufficientData)
    );
    assert_eq!(
        decode_signed(&buffer, 0),
        Err(BinaryFormatError::InsufficientData)
    );
}
