use occule::codec::{Codec, CodecError};
use occule::gltf::extras::{align_to_multiple_of_four, check_glb_header, new_header_length,
    payload_of_extras, ExtrasEntryCodec};

fn glb(json: &str, bin: Option<&[u8]>) -> Vec<u8> {
    let mut text = json.as_bytes().to_vec();
    while text.len() % 4 != 0 {
        text.push(b' ');
    }
    let mut body = Vec::new();
    body.extend_from_slice(&(text.len() as u32).to_le_bytes());
    body.extend_from_slice(b"JSON");
    body.extend_from_slice(&text);
    if let Some(bin) = bin {
        body.extend_from_slice(&(bin.len() as u32).to_le_bytes());
        body.extend_from_slice(b"BIN\0");
        body.extend_from_slice(bin);
    }
    let mut file = b"glTF".to_vec();
    file.extend_from_slice(&2u32.to_le_bytes());
    file.extend_from_slice(&((body.len() + 12) as u32).to_le_bytes());
    file.extend_from_slice(&body);
    file
}

fn document_of(file: &[u8]) -> serde_json::Value {
    let glb = gltf::binary::Glb::from_slice(file).unwrap();
    serde_json::from_slice(&glb.json).unwrap()
}

const PLAIN: &str = r#"{"asset":{"version":"2.0"},"nodes":[{}],"scenes":[{"nodes":[0]}]}"#;
const WITH_EXTRAS: &str = r#"{"asset":{"version":"2.0"},"nodes":[{}],"scenes":[{"nodes":[0],"extras":{"author":"someone"}}]}"#;
const NUMBER_EXTRAS: &str =
    r#"{"asset":{"version":"2.0"},"nodes":[{}],"scenes":[{"nodes":[0],"extras":5}]}"#;
const NO_SCENE: &str = r#"{"asset":{"version":"2.0"}}"#;

#[test]
fn align_to_multiple_of_four_values() {
    assert_eq!(align_to_multiple_of_four(0), 0);
    assert_eq!(align_to_multiple_of_four(1), 4);
    assert_eq!(align_to_multiple_of_four(3), 4);
    assert_eq!(align_to_multiple_of_four(4), 4);
    assert_eq!(align_to_multiple_of_four(5), 8);
    assert_eq!(align_to_multiple_of_four(1021), 1024);
    assert_eq!(align_to_multiple_of_four(usize::MAX - 3), usize::MAX - 3);
}

#[test]
fn new_header_length_values() {
    assert_eq!(new_header_length(100, 40, 41), Some(104));
    assert_eq!(new_header_length(100, 40, 0), Some(60));
    assert_eq!(new_header_length(100, 100, 4), Some(4));
    assert_eq!(new_header_length(100, 101, 4), None);
    assert_eq!(new_header_length(u32::MAX, 3, 0), Some(u32::MAX - 3));
    assert_eq!(new_header_length(u32::MAX, 0, 1), None);
    assert_eq!(new_header_length(0, 0, u32::MAX as usize), None);
    assert_eq!(new_header_length(0, 0, (u32::MAX - 3) as usize), Some(u32::MAX - 3));
}

#[test]
fn glb_header_check() {
    assert!(check_glb_header(b""));
    assert!(check_glb_header(b"{\"asset\":{\"version\":\"2.0\"}}"));
    assert!(check_glb_header(b"glTF\x02\0\0\0"));
    assert!(check_glb_header(b"glTF\x02\0\0\0\x0C\0\0\0"));
    assert!(!check_glb_header(b"glTF\x02\0\0\0\x0B\0\0\0"));
    assert!(!check_glb_header(b"glTF\x02\0\0\0\0\0\0\0 and more"));
    assert!(check_glb_header(b"GLTF\x02\0\0\0\0\0\0\0"));
}

#[test]
fn gltf_round_trip() {
    let carrier = glb(PLAIN, Some(&[1, 2, 3, 4]));
    let payload = vec![0, 1, 2, 253, 254, 255, 7];
    let encoded = ExtrasEntryCodec.encode(&carrier, &payload).unwrap();
    let document = document_of(&encoded);
    assert_eq!(document["scenes"][0]["extras"]["occule"], "AAEC/f7/Bw==");
    let rebuilt = gltf::binary::Glb::from_slice(&encoded).unwrap();
    assert_eq!(rebuilt.bin.as_deref(), Some(&[1u8, 2, 3, 4][..]));
    assert_eq!(rebuilt.header.length as usize, encoded.len());
    let (carrier_back, decoded) = ExtrasEntryCodec.decode(&encoded).unwrap();
    assert_eq!(decoded, payload);
    assert_eq!(carrier_back, encoded);
}

#[test]
fn gltf_keeps_other_extras() {
    let carrier = glb(WITH_EXTRAS, None);
    let encoded = ExtrasEntryCodec.encode(&carrier, b"abc").unwrap();
    let document = document_of(&encoded);
    assert_eq!(document["scenes"][0]["extras"]["author"], "someone");
    assert_eq!(document["scenes"][0]["extras"]["occule"], "YWJj");
    let (_, decoded) = ExtrasEntryCodec.decode(&encoded).unwrap();
    assert_eq!(decoded, b"abc".to_vec());
}

#[test]
fn gltf_empty_payload_round_trip() {
    let encoded = ExtrasEntryCodec.encode(&glb(PLAIN, None), &[]).unwrap();
    let (_, decoded) = ExtrasEntryCodec.decode(&encoded).unwrap();
    assert!(decoded.is_empty());
}

#[test]
fn gltf_rejects_extras_that_are_no_object() {
    let carrier = glb(NUMBER_EXTRAS, None);
    assert!(matches!(ExtrasEntryCodec.encode(&carrier, &[1]), Err(CodecError::DataInvalid(_))));
    assert!(matches!(ExtrasEntryCodec.decode(&carrier), Err(CodecError::DataNotEncoded)));
}

#[test]
fn gltf_decode_of_plain_carrier_is_not_encoded() {
    assert!(matches!(
        ExtrasEntryCodec.decode(&glb(PLAIN, None)),
        Err(CodecError::DataNotEncoded)
    ));
    assert!(matches!(
        ExtrasEntryCodec.decode(&glb(WITH_EXTRAS, None)),
        Err(CodecError::DataNotEncoded)
    ));
    let number_entry =
        r#"{"asset":{"version":"2.0"},"nodes":[{}],"scenes":[{"nodes":[0],"extras":{"occule":5}}]}"#;
    assert!(matches!(
        ExtrasEntryCodec.decode(&glb(number_entry, None)),
        Err(CodecError::DataNotEncoded)
    ));
}

#[test]
fn gltf_without_a_scene() {
    let carrier = glb(NO_SCENE, None);
    assert!(matches!(ExtrasEntryCodec.encode(&carrier, &[1]), Err(CodecError::DataInvalid(_))));
    assert!(matches!(ExtrasEntryCodec.decode(&carrier), Err(CodecError::DataNotEncoded)));
}

#[test]
fn gltf_reports_text_that_is_not_base64() {
    let broken = r#"{"asset":{"version":"2.0"},"nodes":[{}],"scenes":[{"nodes":[0],"extras":{"occule":"%%%"}}]}"#;
    assert!(matches!(
        ExtrasEntryCodec.decode(&glb(broken, None)),
        Err(CodecError::DependencyError(_))
    ));
}

#[test]
fn gltf_reports_unreadable_carrier() {
    assert!(matches!(ExtrasEntryCodec.encode(b"not a model", &[1]), Err(CodecError::DependencyError(_))));
    assert!(matches!(ExtrasEntryCodec.decode(b"not a model"), Err(CodecError::DependencyError(_))));
    assert!(matches!(ExtrasEntryCodec.decode(&[]), Err(CodecError::DependencyError(_))));
    let short_header = b"glTF\x02\0\0\0\x04\0\0\0 and more";
    assert!(matches!(ExtrasEntryCodec.encode(short_header, &[1]), Err(CodecError::DependencyError(_))));
    assert!(matches!(ExtrasEntryCodec.decode(short_header), Err(CodecError::DependencyError(_))));
}

#[test]
fn gltf_text_carrier_cannot_be_rebuilt() {
    assert!(matches!(
        ExtrasEntryCodec.encode(PLAIN.as_bytes(), &[1]),
        Err(CodecError::DependencyError(_))
    ));
    let encoded_text =
        r#"{"asset":{"version":"2.0"},"nodes":[{}],"scenes":[{"nodes":[0],"extras":{"occule":"YWJj"}}]}"#;
    let (carrier, payload) = ExtrasEntryCodec.decode(encoded_text.as_bytes()).unwrap();
    assert_eq!(payload, b"abc".to_vec());
    assert_eq!(carrier, encoded_text.as_bytes());
}

#[test]
fn payload_of_extras_values() {
    assert!(matches!(payload_of_extras(None), Err(CodecError::DataNotEncoded)));
    assert!(matches!(payload_of_extras(Some("[]".to_string())), Err(CodecError::DataNotEncoded)));
    assert!(matches!(payload_of_extras(Some("{}".to_string())), Err(CodecError::DataNotEncoded)));
    assert!(matches!(payload_of_extras(Some("{".to_string())), Err(CodecError::DataNotEncoded)));
    assert_eq!(
        payload_of_extras(Some(r#"{"occule":"AQID"}"#.to_string())).unwrap(),
        vec![1, 2, 3]
    );
    assert!(matches!(
        payload_of_extras(Some(r#"{"occule":"AQI"}"#.to_string())),
        Err(CodecError::DependencyError(_))
    ));
}
