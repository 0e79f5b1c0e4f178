use visual_codec::bitpack::{bytes_to_symbols, symbols_to_bytes};
use visual_codec::carrier::OpticalCarrier;
use visual_codec::checksum::IntegrityChecksum;
use visual_codec::errors::CodecError;

/// Builds a pixel buffer whose blue-channel low bits spell out the given
/// byte stream, all other bytes zero.
fn buffer_with_stream(stream: &[u8]) -> Vec<u8> {
    let syms = bytes_to_symbols(stream, 2);
    let mut buf = vec![0u8; syms.len() * 4];
    for (t, s) in syms.iter().enumerate() {
        buf[2 + 4 * t] = *s;
    }
    buf
}

#[test]
fn test_encode_decode() {
    let mut carrier = OpticalCarrier::new(100, 100);

    carrier.ingest_frame(&vec![128u8; 100 * 100 * 4]);

    let payload = b"Hello, TENT v4.0!";
    carrier.inject_payload(payload).unwrap();

    let extracted = carrier.extract_payload().unwrap();
    assert_eq!(extracted, payload.to_vec());
}

#[test]
fn test_round_trip_empty_payload() {
    let mut carrier = OpticalCarrier::new(10, 10);
    carrier.inject_payload(b"").unwrap();
    assert_eq!(carrier.extract_payload().unwrap(), Vec::<u8>::new());
}

#[test]
fn test_round_trip_over_noise() {
    let mut carrier = OpticalCarrier::new(25, 17);
    let noise: Vec<u8> = (0..25u32 * 17 * 4).map(|i| (i * 31 + 7) as u8).collect();
    carrier.ingest_frame(&noise);
    let payload = [0u8, 255, 1, 254, 127, 128];
    carrier.inject_payload(&payload).unwrap();
    assert_eq!(carrier.extract_payload().unwrap(), payload.to_vec());
}

#[test]
fn test_symbols_round_trip() {
    let bytes = [0x00u8, 0x7F, 0x80, 0xFF, 0x54, 0x01];
    for width in [1u8, 2, 4, 8] {
        let syms = bytes_to_symbols(&bytes, width);
        assert_eq!(syms.len(), bytes.len() * (8 / width as usize));
        assert_eq!(symbols_to_bytes(&syms, width), bytes.to_vec());
    }
}

#[test]
fn test_bytes_to_symbols_values() {
    assert_eq!(bytes_to_symbols(&[0x54], 2), vec![1, 1, 1, 0]);
    assert_eq!(bytes_to_symbols(&[0x54], 4), vec![5, 4]);
    assert_eq!(bytes_to_symbols(&[0x54], 8), vec![0x54]);
    assert_eq!(bytes_to_symbols(&[0x54], 1), vec![0, 1, 0, 1, 0, 1, 0, 0]);
}

#[test]
fn test_symbols_to_bytes_drops_partial_group() {
    assert_eq!(symbols_to_bytes(&[1, 1, 1, 0, 3], 2), vec![0x54]);
    assert_eq!(symbols_to_bytes(&[2, 3, 1], 2), Vec::<u8>::new());
}

#[test]
fn test_checksum_encode_values() {
    let rs = IntegrityChecksum::new(16);
    let encoded = rs.encode(&[1]);
    let expected = vec![
        1u8, 1, 2, 4, 8, 16, 32, 64, 128, 1, 2, 4, 8, 16, 32, 64, 128,
    ];
    assert_eq!(encoded, expected);
}

#[test]
fn test_checksum_encode_empty() {
    let rs = IntegrityChecksum::new(16);
    assert_eq!(rs.encode(&[]), vec![0u8; 16]);
}

#[test]
fn test_checksum_decode() {
    let rs = IntegrityChecksum::new(16);
    let data = [10u8, 20, 30];
    assert_eq!(rs.decode(&rs.encode(&data)).unwrap(), data.to_vec());
    assert_eq!(rs.decode(&[0u8; 15]), Err(CodecError::TooShort));
    assert_eq!(rs.decode(&[0u8; 16]).unwrap(), Vec::<u8>::new());
}

#[test]
fn test_capacity_exact_fit() {
    // A 10x10 buffer offers exactly 100 blue-channel slots; a one-byte
    // payload frames to 8 + 1 + 16 = 25 bytes = 100 symbols.
    let mut carrier = OpticalCarrier::new(10, 10);
    assert_eq!(carrier.inject_payload(&[42]), Ok(()));
    assert_eq!(carrier.extract_payload().unwrap(), vec![42]);
}

#[test]
fn test_capacity_one_byte_over() {
    // One more payload byte needs 104 slots and must fail, leaving the
    // buffer untouched.
    let mut carrier = OpticalCarrier::new(10, 10);
    carrier.ingest_frame(&vec![7u8; 400]);
    assert_eq!(
        carrier.inject_payload(&[1, 2]),
        Err(CodecError::CapacityExceeded)
    );
    assert_eq!(carrier.get_pixel_data(), &vec![7u8; 400][..]);
}

#[test]
fn test_capacity_exceeded_tiny_buffer() {
    let mut carrier = OpticalCarrier::new(1, 1);
    assert_eq!(
        carrier.inject_payload(b"x"),
        Err(CodecError::CapacityExceeded)
    );
    assert_eq!(carrier.get_pixel_data(), &[0u8, 0, 0, 0][..]);
}

#[test]
fn test_no_magic_found() {
    let carrier = OpticalCarrier::new(10, 10);
    assert_eq!(carrier.extract_payload(), Err(CodecError::NoPayloadFound));
}

#[test]
fn test_magic_after_leading_noise() {
    // Noise before the true frame: the scan must find the first magic
    // occurrence, one byte in.
    let mut stream = vec![0xFFu8, 0x54, 0x45, 0x4E, 0x54, 0, 0, 0, 16];
    stream.extend_from_slice(&[0u8; 16]);
    let buf = buffer_with_stream(&stream);
    let mut carrier = OpticalCarrier::new(5, 5);
    carrier.ingest_frame(&buf);
    assert_eq!(carrier.extract_payload().unwrap(), Vec::<u8>::new());
}

#[test]
fn test_truncated_header() {
    let stream = [0x54u8, 0x45, 0x4E, 0x54, 0xAA];
    let mut carrier = OpticalCarrier::new(1, 20);
    carrier.ingest_frame(&buffer_with_stream(&stream));
    assert_eq!(carrier.extract_payload(), Err(CodecError::TruncatedHeader));
}

#[test]
fn test_payload_overrun() {
    let stream = [0x54u8, 0x45, 0x4E, 0x54, 0, 0, 0, 200, 0xBB, 0xCC, 0xDD];
    let mut carrier = OpticalCarrier::new(1, 44);
    carrier.ingest_frame(&buffer_with_stream(&stream));
    assert_eq!(carrier.extract_payload(), Err(CodecError::PayloadOverrun));
}

#[test]
fn test_declared_length_too_short_for_checksum() {
    let stream = [0x54u8, 0x45, 0x4E, 0x54, 0, 0, 0, 5, 9, 8, 7, 6, 5];
    let mut carrier = OpticalCarrier::new(1, 52);
    carrier.ingest_frame(&buffer_with_stream(&stream));
    assert_eq!(carrier.extract_payload(), Err(CodecError::TooShort));
}

#[test]
fn test_magic_in_final_window_truncated_header() {
    // A magic ending the stream is still found; with no room for the
    // length field after it, the header is truncated.
    let stream = [0x54u8, 0x45, 0x4E, 0x54];
    let mut carrier = OpticalCarrier::new(1, 16);
    carrier.ingest_frame(&buffer_with_stream(&stream));
    assert_eq!(carrier.extract_payload(), Err(CodecError::TruncatedHeader));
}

#[test]
fn test_wire_format_blue_channel() {
    // An empty payload frames to magic, length 16 big-endian, and 16
    // zero checksum bytes; the first symbols must spell the magic
    // most significant pair first, at byte offsets 2, 6, 10, ...
    let mut carrier = OpticalCarrier::new(10, 10);
    carrier.inject_payload(b"").unwrap();
    let buf = carrier.get_pixel_data();
    // 0x54 -> 1,1,1,0   0x45 -> 1,0,1,1   0x4E -> 1,0,3,2
    let expect = [
        1u8, 1, 1, 0, 1, 0, 1, 1, 1, 0, 3, 2, 1, 1, 1, 0, // magic
        0, 0, 0, 0, 0, 0, 0, 0, 0, 0, 0, 0, 0, 1, 0, 0, // length = 16
    ];
    for (t, e) in expect.iter().enumerate() {
        assert_eq!(buf[2 + 4 * t], *e, "symbol {} differs", t);
    }
}

#[test]
fn test_dimensions_and_pixel_data() {
    let mut carrier = OpticalCarrier::new(3, 2);
    assert_eq!(carrier.dimensions(), (3, 2));
    assert_eq!(carrier.get_pixel_data().len(), 24);
    assert!(carrier.get_pixel_data().iter().all(|b| *b == 0));
    carrier.ingest_frame(&[1, 2, 3, 4]);
    assert_eq!(carrier.get_pixel_data(), &[1u8, 2, 3, 4][..]);
}

#[test]
fn test_checksum_two_bytes_rotation_offsets() {
    // Byte j enters checksum position i rotated by (i + j) % 8, so for
    // data [1, 1] position i xors 2^i with 2^(i+1), wrapping at 8 bits.
    let rs = IntegrityChecksum::new(16);
    let encoded = rs.encode(&[1, 1]);
    let expected = vec![
        1u8, 1, 3, 6, 12, 24, 48, 96, 192, 129, 3, 6, 12, 24, 48, 96, 192, 129,
    ];
    assert_eq!(encoded, expected);
}

#[test]
fn test_checksum_custom_parity_length() {
    let rs = IntegrityChecksum::new(4);
    let encoded = rs.encode(&[5]);
    assert_eq!(encoded, vec![5u8, 5, 10, 20, 40]);
    assert_eq!(rs.decode(&encoded).unwrap(), vec![5u8]);
    assert_eq!(rs.decode(&[1u8, 2, 3]), Err(CodecError::TooShort));
}

#[test]
fn test_bytes_to_symbols_multi_byte_order() {
    assert_eq!(
        bytes_to_symbols(&[0xAB, 0xCD], 2),
        vec![2, 2, 2, 3, 3, 0, 3, 1]
    );
}
