use occule::binary::reverse_appendix::{push_reversed, BinaryReverseAppendixCodec};
use occule::codec::{Codec, CodecError, ErrorKind};
use occule::framing::{u32_to_le, u64_from_le, u64_to_le};

#[test]
fn appendix_exact_bytes() {
    let encoded = BinaryReverseAppendixCodec.encode(&[0xAA, 0xBB], &[0x01, 0x02]).unwrap();
    assert_eq!(encoded, vec![0xAA, 0xBB, 0x02, 0x01, 0, 0, 0, 0, 0, 0, 0, 0x0A]);
}

#[test]
fn appendix_decodes_exact_bytes() {
    let encoded = [0xAA, 0xBB, 0x02, 0x01, 0, 0, 0, 0, 0, 0, 0, 0x0A];
    let (carrier, payload) = BinaryReverseAppendixCodec.decode(&encoded).unwrap();
    assert_eq!(carrier, vec![0xAA, 0xBB]);
    assert_eq!(payload, vec![0x01, 0x02]);
}

#[test]
fn appendix_round_trip() {
    let carrier: Vec<u8> = (0..=255).collect();
    let payload: Vec<u8> = (0..1000).map(|i| (i * 7 % 251) as u8).collect();
    let encoded = BinaryReverseAppendixCodec.encode(&carrier, &payload).unwrap();
    assert_eq!(encoded.len(), carrier.len() + payload.len() + 8);
    assert_eq!(&encoded[..carrier.len()], &carrier[..]);
    let (carrier_back, payload_back) = BinaryReverseAppendixCodec.decode(&encoded).unwrap();
    assert_eq!(carrier_back, carrier);
    assert_eq!(payload_back, payload);
}

#[test]
fn appendix_round_trip_empty_payload_and_carrier() {
    let encoded = BinaryReverseAppendixCodec.encode(&[], &[]).unwrap();
    assert_eq!(encoded, vec![0, 0, 0, 0, 0, 0, 0, 8]);
    let (carrier, payload) = BinaryReverseAppendixCodec.decode(&encoded).unwrap();
    assert!(carrier.is_empty());
    assert!(payload.is_empty());
}

#[test]
fn appendix_rejects_short_buffer() {
    let result = BinaryReverseAppendixCodec.decode(&[1, 2, 3, 4, 5, 6, 7]);
    assert!(matches!(result, Err(CodecError::DataNotEncoded)));
}

#[test]
fn appendix_rejects_length_below_field_width() {
    let result = BinaryReverseAppendixCodec.decode(&[9, 9, 0, 0, 0, 0, 0, 0, 0, 7]);
    assert!(matches!(result, Err(CodecError::DataNotEncoded)));
}

#[test]
fn appendix_rejects_length_beyond_buffer() {
    let result = BinaryReverseAppendixCodec.decode(&[9, 9, 0, 0, 0, 0, 0, 0, 0, 11]);
    assert!(matches!(result, Err(CodecError::DataNotEncoded)));
    let huge = BinaryReverseAppendixCodec.decode(&[0xFF; 16]);
    assert!(matches!(huge, Err(CodecError::DataNotEncoded)));
}

#[test]
fn appendix_accepts_length_equal_to_buffer() {
    let (carrier, payload) =
        BinaryReverseAppendixCodec.decode(&[9, 8, 0, 0, 0, 0, 0, 0, 0, 10]).unwrap();
    assert!(carrier.is_empty());
    assert_eq!(payload, vec![8, 9]);
}

#[test]
fn push_reversed_appends_back_to_front() {
    let mut out = vec![1, 2];
    push_reversed(&mut out, &[3, 4, 5]);
    assert_eq!(out, vec![1, 2, 5, 4, 3]);
}

#[test]
fn error_kinds() {
    assert_eq!(CodecError::DataNotEncoded.kind(), ErrorKind::NotEncoded);
    assert_eq!(CodecError::DataInvalid("x".to_string()).kind(), ErrorKind::Invalid);
    assert_eq!(CodecError::DependencyError("x".to_string()).kind(), ErrorKind::Dependency);
}

#[test]
fn little_endian_bytes() {
    assert_eq!(u64_to_le(10), vec![10, 0, 0, 0, 0, 0, 0, 0]);
    assert_eq!(
        u64_to_le(0x0102_0304_0506_0708),
        vec![0x08, 0x07, 0x06, 0x05, 0x04, 0x03, 0x02, 0x01]
    );
    assert_eq!(u64_to_le(u64::MAX), vec![0xFF; 8]);
    assert_eq!(u32_to_le(0x0A0B_0C0D), vec![0x0D, 0x0C, 0x0B, 0x0A]);
    assert_eq!(u32_to_le(4), vec![4, 0, 0, 0]);
}

#[test]
fn little_endian_value() {
    assert_eq!(u64_from_le(&[]), 0);
    assert_eq!(u64_from_le(&[0x0A]), 10);
    assert_eq!(u64_from_le(&[0x0D, 0x0C, 0x0B, 0x0A]), 0x0A0B_0C0D);
    assert_eq!(u64_from_le(&[0xFF; 8]), u64::MAX);
    assert_eq!(u64_from_le(&0x0102_0304_0506_0708u64.to_le_bytes()), 0x0102_0304_0506_0708);
}

#[test]
fn error_descriptions() {
    assert_eq!(CodecError::DataNotEncoded.description(), "Data was not encoded with this codec");
    assert_eq!(
        CodecError::DataInvalid("too big".to_string()).description(),
        "Provided data invalid: too big"
    );
    assert_eq!(
        CodecError::DependencyError("no RIFF tag found".to_string()).description(),
        "Error occured in dependency: no RIFF tag found"
    );
}

#[test]
fn appendix_decode_of_plain_data_is_not_encoded() {
    let text = b"a buffer that no codec has seen, ending in text";
    assert!(matches!(BinaryReverseAppendixCodec.decode(text), Err(CodecError::DataNotEncoded)));
    let zeros = [0u8; 64];
    assert!(matches!(BinaryReverseAppendixCodec.decode(&zeros), Err(CodecError::DataNotEncoded)));
}

#[test]
fn appendix_whatever_decodes_encodes_back() {
    let buffer = [7, 1, 2, 3, 0, 0, 0, 0, 0, 0, 0, 11];
    let (carrier, payload) = BinaryReverseAppendixCodec.decode(&buffer).unwrap();
    assert_eq!(carrier, vec![7]);
    assert_eq!(payload, vec![3, 2, 1]);
    assert_eq!(BinaryReverseAppendixCodec.encode(&carrier, &payload).unwrap(), buffer.to_vec());
}
