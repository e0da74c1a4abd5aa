use occule::codec::{Codec, CodecError};
use occule::jpeg::segment::{insert_payload, remove_payload, JpegSegmentCodec};

fn segment(marker: u8, contents: &[u8]) -> Vec<u8> {
    let mut bytes = vec![0xFF, marker];
    bytes.extend_from_slice(&((contents.len() + 2) as u16).to_be_bytes());
    bytes.extend_from_slice(contents);
    bytes
}

fn file_of(segments: &[Vec<u8>]) -> Vec<u8> {
    let mut bytes = vec![0xFF, 0xD8];
    for part in segments {
        bytes.extend_from_slice(part);
    }
    bytes.extend_from_slice(&segment(0xDA, &[1, 1, 0, 0, 63, 0]));
    bytes.extend_from_slice(&[0x12, 0x34, 0x56, 0x00, 0x78, 0xFF, 0xD9]);
    bytes
}

fn carrier() -> Vec<u8> {
    file_of(&[
        segment(0xE0, b"JFIF\0\x01\x01\0\0\x01\0\x01\0\0"),
        segment(0xDB, &[7; 65]),
        segment(0xC0, &[8, 0, 1, 0, 1, 1, 1, 0x11, 0]),
        segment(0xC4, &[0; 20]),
    ])
}

fn markers_of(bytes: &[u8]) -> Vec<u8> {
    let jpeg = img_parts::jpeg::Jpeg::from_bytes(bytes.to_vec().into()).unwrap();
    jpeg.segments().iter().map(|s| s.marker()).collect()
}

#[test]
fn jpeg_default_start_index() {
    assert_eq!(JpegSegmentCodec::default().start_index, 3);
    assert_eq!(JpegSegmentCodec::default(), JpegSegmentCodec { start_index: 3 });
}

#[test]
fn jpeg_round_trip_is_exact() {
    let codec = JpegSegmentCodec::default();
    let carrier = carrier();
    let payload = b"comment segments carry this".to_vec();
    let encoded = codec.encode(&carrier, &payload).unwrap();
    assert_eq!(markers_of(&encoded), vec![0xE0, 0xDB, 0xC0, 0xFE, 0xC4, 0xDA]);
    let (carrier_back, payload_back) = codec.decode(&encoded).unwrap();
    assert_eq!(carrier_back, carrier);
    assert_eq!(payload_back, payload);
}

#[test]
fn jpeg_round_trip_at_other_indices() {
    let carrier = carrier();
    for start_index in 0..=4 {
        let codec = JpegSegmentCodec { start_index };
        let encoded = codec.encode(&carrier, &[1, 2, 3]).unwrap();
        assert_eq!(markers_of(&encoded)[start_index], 0xFE);
        let (carrier_back, payload_back) = codec.decode(&encoded).unwrap();
        assert_eq!(carrier_back, carrier);
        assert_eq!(payload_back, vec![1, 2, 3]);
    }
}

#[test]
fn jpeg_segments_behind_the_scan_are_not_read_back() {
    let codec = JpegSegmentCodec { start_index: 5 };
    let encoded = codec.encode(&carrier(), &[1, 2, 3]).unwrap();
    assert_eq!(markers_of(&encoded), vec![0xE0, 0xDB, 0xC0, 0xC4, 0xDA]);
    assert!(matches!(codec.decode(&encoded), Err(CodecError::DataNotEncoded)));
}

#[test]
fn jpeg_empty_payload_round_trip() {
    let codec = JpegSegmentCodec::default();
    let encoded = codec.encode(&carrier(), &[]).unwrap();
    let jpeg = img_parts::jpeg::Jpeg::from_bytes(encoded.clone().into()).unwrap();
    assert_eq!(jpeg.segments()[3].contents().to_vec(), vec![1, 0, 0, 0, 0, 0, 0, 0]);
    let (carrier_back, payload) = codec.decode(&encoded).unwrap();
    assert_eq!(carrier_back, carrier());
    assert!(payload.is_empty());
}

#[test]
fn jpeg_segment_chunking_boundary() {
    let codec = JpegSegmentCodec::default();
    let payload: Vec<u8> = (0..65533 * 2 + 1).map(|i| (i % 251) as u8).collect();
    let encoded = codec.encode(&carrier(), &payload).unwrap();
    assert_eq!(markers_of(&encoded), vec![0xE0, 0xDB, 0xC0, 0xFE, 0xFE, 0xFE, 0xC4, 0xDA]);
    let jpeg = img_parts::jpeg::Jpeg::from_bytes(encoded.clone().into()).unwrap();
    let segments = jpeg.segments();
    assert_eq!(&segments[3].contents()[..8], &[3, 0, 0, 0, 0, 0, 0, 0]);
    assert_eq!(segments[3].contents().len(), 65533);
    assert_eq!(segments[4].contents().len(), 65533);
    assert_eq!(segments[5].contents().len(), 9);
    assert_eq!(&segments[3].contents()[8..], &payload[..65525]);
    let (carrier_back, payload_back) = codec.decode(&encoded).unwrap();
    assert_eq!(carrier_back, carrier());
    assert_eq!(payload_back, payload);
}

#[test]
fn jpeg_full_chunks_take_no_extra_segment() {
    let codec = JpegSegmentCodec::default();
    let payload = vec![0x5A; 65533 * 2 - 8];
    let encoded = codec.encode(&carrier(), &payload).unwrap();
    assert_eq!(markers_of(&encoded), vec![0xE0, 0xDB, 0xC0, 0xFE, 0xFE, 0xC4, 0xDA]);
    let (_, payload_back) = codec.decode(&encoded).unwrap();
    assert_eq!(payload_back, payload);
}

#[test]
fn jpeg_decode_of_plain_carrier_is_not_encoded() {
    let codec = JpegSegmentCodec::default();
    assert!(matches!(codec.decode(&carrier()), Err(CodecError::DataNotEncoded)));
    let past_the_end = JpegSegmentCodec { start_index: 5 };
    assert!(matches!(past_the_end.decode(&carrier()), Err(CodecError::DataNotEncoded)));
}

#[test]
fn jpeg_decode_checks_the_count() {
    let codec = JpegSegmentCodec { start_index: 1 };
    let with_comment = |comments: &[Vec<u8>]| {
        let mut parts = vec![segment(0xE0, b"JFIF\0")];
        parts.extend(comments.iter().map(|c| segment(0xFE, c)));
        parts.push(segment(0xDB, &[7; 65]));
        file_of(&parts)
    };
    let short = with_comment(&[vec![1, 0, 0, 0, 0, 0, 0]]);
    assert!(matches!(codec.decode(&short), Err(CodecError::DataNotEncoded)));
    let zero = with_comment(&[vec![0, 0, 0, 0, 0, 0, 0, 0, 9]]);
    assert!(matches!(codec.decode(&zero), Err(CodecError::DataNotEncoded)));
    let other_marker = with_comment(&[vec![2, 0, 0, 0, 0, 0, 0, 0, 9]]);
    assert!(matches!(codec.decode(&other_marker), Err(CodecError::DataNotEncoded)));
    let too_many = with_comment(&[vec![4, 0, 0, 0, 0, 0, 0, 0, 9]]);
    assert!(matches!(codec.decode(&too_many), Err(CodecError::DataNotEncoded)));
    let huge = with_comment(&[vec![0xFF; 8]]);
    assert!(matches!(codec.decode(&huge), Err(CodecError::DataNotEncoded)));
    let two = with_comment(&[vec![2, 0, 0, 0, 0, 0, 0, 0, 9], vec![8, 7]]);
    let (rest, payload) = codec.decode(&two).unwrap();
    assert_eq!(payload, vec![9, 8, 7]);
    assert_eq!(markers_of(&rest), vec![0xE0, 0xDB, 0xDA]);
}

#[test]
fn jpeg_encode_rejects_index_past_the_segments() {
    let codec = JpegSegmentCodec { start_index: 6 };
    assert!(matches!(codec.encode(&carrier(), &[1]), Err(CodecError::DataInvalid(_))));
}

#[test]
fn jpeg_reports_unreadable_carrier() {
    let codec = JpegSegmentCodec::default();
    assert!(matches!(codec.encode(b"not a jpeg", &[1]), Err(CodecError::DependencyError(_))));
    assert!(matches!(codec.decode(b"not a jpeg"), Err(CodecError::DependencyError(_))));
    assert!(matches!(codec.decode(&[0xFF, 0xD8, 0xFF]), Err(CodecError::DependencyError(_))));
    assert!(matches!(codec.encode(&[], &[]), Err(CodecError::DependencyError(_))));
}

#[test]
fn insert_and_remove_payload_on_segments() {
    let mut jpeg = img_parts::jpeg::Jpeg::from_bytes(carrier().into()).unwrap();
    let before = jpeg.clone();
    assert!(insert_payload(&mut jpeg, 0, &[4, 5, 6]).is_ok());
    assert_eq!(jpeg.segments().len(), 6);
    assert_eq!(jpeg.segments()[0].marker(), img_parts::jpeg::markers::COM);
    assert_eq!(jpeg.segments()[0].contents().to_vec(), vec![1, 0, 0, 0, 0, 0, 0, 0, 4, 5, 6]);
    assert_eq!(remove_payload(&mut jpeg, 0).unwrap(), vec![4, 5, 6]);
    assert_eq!(jpeg, before);
    assert!(matches!(remove_payload(&mut jpeg, 0), Err(CodecError::DataNotEncoded)));
}

#[test]
fn insert_payload_checks_the_index() {
    let mut jpeg = img_parts::jpeg::Jpeg::from_bytes(carrier().into()).unwrap();
    let before = jpeg.clone();
    assert!(matches!(insert_payload(&mut jpeg, 6, &[1]), Err(CodecError::DataInvalid(_))));
    assert_eq!(jpeg, before);
    assert!(insert_payload(&mut jpeg, 5, &[1]).is_ok());
    assert_eq!(jpeg.segments().len(), 6);
    assert_eq!(jpeg.segments()[5].contents().to_vec(), vec![1, 0, 0, 0, 0, 0, 0, 0, 1]);
}
