//! Payload stored, as base64 text, in the `extras` entry of the first scene
//! of a binary glTF file.

use vstd::prelude::*;
use vstd::string::StringExecFns;
use crate::codec::{Codec, CodecError, ErrorKind};
use crate::framing::{le_value, u64_from_le};

verus! {

/// The least multiple of four that is not below `n`.
pub open spec fn aligned_to_four(n: nat) -> nat {
    ((n + 3) / 4 * 4) as nat
}

/// Rounds `n` up to a multiple of four.
pub fn align_to_multiple_of_four(n: usize) -> (aligned: usize)
    requires
        n <= usize::MAX - 3,
    ensures
        aligned == aligned_to_four(n as nat),
        aligned % 4 == 0,
        n <= aligned < n + 4,
{
    let bumped: usize = n + 3;
    let aligned: usize = bumped & !3usize;
    assert(aligned == bumped / 4 * 4) by (bit_vector)
        requires
            aligned == bumped & !3usize,
    ;
    aligned
}

/// The length field of a binary glTF header after the JSON chunk has been
/// replaced: the old length, less the old JSON, plus the new JSON with its
/// padding. `None` where the JSON is longer than the file says, or the new
/// length does not fit the 32-bit field.
pub open spec fn header_length(length: u32, old_json: nat, new_json: nat) -> Option<u32> {
    if old_json > length || length - old_json + aligned_to_four(new_json) > u32::MAX {
        None
    } else {
        Some((length - old_json + aligned_to_four(new_json)) as u32)
    }
}

/// Computes the length field of the header for a replaced JSON chunk.
pub fn new_header_length(length: u32, old_json: usize, new_json: usize) -> (r: Option<u32>)
    ensures
        r == header_length(length, old_json as nat, new_json as nat),
{
    if old_json > length as usize || new_json > (u32::MAX - 3) as usize {
        return None;
    }
    let rest: u64 = length as u64 - old_json as u64;
    let padded: u64 = align_to_multiple_of_four(new_json) as u64;
    if rest + padded > u32::MAX as u64 {
        None
    } else {
        Some((rest + padded) as u32)
    }
}

/// Whether the parser can be given the buffer: a buffer that opens as a
/// binary glTF header must not declare a length below the header's own
/// twelve bytes.
pub open spec fn glb_header_sound(carrier: Seq<u8>) -> bool {
    carrier.len() >= 12 && carrier.subrange(0, 4) == seq![0x67u8, 0x6Cu8, 0x54u8, 0x46u8]
        ==> le_value(carrier.subrange(8, 12)) >= 12
}

/// Decides `glb_header_sound`.
pub fn check_glb_header(carrier: &[u8]) -> (sound: bool)
    ensures
        sound == glb_header_sound(carrier@),
{
    if carrier.len() < 12 {
        return true;
    }
    let magic = vstd::slice::slice_subrange(carrier, 0, 4);
    if magic[0] == 0x67 && magic[1] == 0x6C && magic[2] == 0x54 && magic[3] == 0x46 {
        assert(carrier@.subrange(0, 4) =~= seq![0x67u8, 0x6Cu8, 0x54u8, 0x46u8]);
        u64_from_le(vstd::slice::slice_subrange(carrier, 8, 12)) >= 12
    } else {
        assert(carrier@.subrange(0, 4) != seq![0x67u8, 0x6Cu8, 0x54u8, 0x46u8]) by {
            let m = carrier@.subrange(0, 4);
            let g = seq![0x67u8, 0x6Cu8, 0x54u8, 0x46u8];
            assert(m[0] != g[0] || m[1] != g[1] || m[2] != g[2] || m[3] != g[3]);
        }
        true
    }
}

/// What `Gltf::from_slice` finds in a buffer: `None` where it fails; else
/// `Some(None)` for a document without a scene; else the JSON text of the
/// first scene's extras, if it has any.
pub uninterp spec fn scene_extras(carrier: Seq<u8>) -> Option<Option<Option<Seq<char>>>>;

/// The JSON text of an object with one more entry, whose value is a
/// string, as `serde_json` writes it: `None` where the text does not parse
/// or cannot be written, `Some(None)` where it is no object.
pub uninterp spec fn json_with_entry(text: Seq<char>, key: Seq<char>, value: Seq<char>) -> Option<
    Option<Seq<char>>,
>;

/// The string that a JSON object holds under a key, as `serde_json` reads
/// it: `None` where the text is no object, or holds no string there.
pub uninterp spec fn json_entry(text: Seq<char>, key: Seq<char>) -> Option<Seq<char>>;

/// The JSON document of a glTF buffer, as `gltf_json` writes it after the
/// extras of the first scene have been replaced; `None` where that fails.
pub uninterp spec fn document_with_extras(carrier: Seq<u8>, extras: Seq<char>) -> Option<Seq<u8>>;

/// The length field of the header and the length of the JSON chunk that
/// `Glb::from_slice` reads from a buffer; `None` where it fails. Where it
/// reads them, they are the little-endian numbers at bytes 8 to 12 and at
/// bytes 12 to 16.
pub uninterp spec fn glb_lengths(carrier: Seq<u8>) -> Option<(u32, nat)>;

/// The file that `Glb::to_vec` writes for a buffer whose JSON chunk and
/// header length have been replaced; `None` where that fails.
pub uninterp spec fn glb_with_json(carrier: Seq<u8>, json: Seq<u8>, length: u32) -> Option<
    Seq<u8>,
>;

/// The text that the standard base64 engine writes for bytes.
pub uninterp spec fn base64_text(bytes: Seq<u8>) -> Seq<char>;

/// The bytes that the standard base64 engine reads from a text; `None`
/// where the text is not base64.
pub uninterp spec fn base64_bytes(text: Seq<char>) -> Option<Seq<u8>>;

/// Calls `Gltf::from_slice` and hands out the extras of the first scene as
/// text. What is found depends on the buffer alone.
#[verifier::external_body]
fn read_scene_extras(carrier: &[u8]) -> (r: Result<Option<Option<String>>, String>)
    requires
        glb_header_sound(carrier@),
    ensures
        match r {
            Err(_) => scene_extras(carrier@) is None,
            Ok(None) => scene_extras(carrier@) == Some(None::<Option<Seq<char>>>),
            Ok(Some(None)) => scene_extras(carrier@) == Some(Some(None::<Seq<char>>)),
            Ok(Some(Some(text))) => scene_extras(carrier@) == Some(Some(Some(text@))),
        },
{
    let gltf = gltf::Gltf::from_slice(carrier).map_err(|e| e.to_string())?;
    let json = gltf.document.into_json();
    Ok(json.scenes.first().map(|scene| scene.extras.as_ref().map(|raw| raw.get().to_string())))
}

/// Parses the text with `serde_json::from_str`, puts the entry into the
/// object with `Map::insert` and writes it with `to_raw_value`. The
/// outcome depends on the arguments alone.
#[verifier::external_body]
fn insert_entry(text: &str, key: &str, value: &str) -> (r: Result<Option<String>, String>)
    ensures
        match r {
            Ok(Some(edited)) => json_with_entry(text@, key@, value@) == Some(Some(edited@)),
            Ok(None) => json_with_entry(text@, key@, value@) == Some(None::<Seq<char>>),
            Err(_) => json_with_entry(text@, key@, value@) is None,
        },
{
    match serde_json::from_str::<serde_json::Value>(text) {
        Ok(serde_json::Value::Object(mut object)) => {
            object.insert(key.into(), serde_json::Value::String(value.into()));
            let raw = serde_json::value::to_raw_value(&object).map_err(|e| e.to_string())?;
            Ok(Some(raw.get().to_string()))
        },
        Ok(_) => Ok(None),
        Err(e) => Err(e.to_string()),
    }
}

/// Parses the text with `serde_json::from_str` and takes the entry out of
/// the object with `Map::remove`. The outcome depends on the arguments
/// alone.
#[verifier::external_body]
fn take_entry(text: &str, key: &str) -> (r: Option<String>)
    ensures
        r is Some <==> json_entry(text@, key@) is Some,
        r is Some ==> r->Some_0@ == json_entry(text@, key@)->Some_0,
{
    match serde_json::from_str::<serde_json::Value>(text) {
        Ok(serde_json::Value::Object(mut object)) => match object.remove(key) {
            Some(serde_json::Value::String(value)) => Some(value),
            _ => None,
        },
        _ => None,
    }
}

/// Calls `Gltf::from_slice`, replaces the extras of the first scene with
/// the text, checked by `RawValue::from_string`, and writes the document
/// with `gltf_json::serialize::to_string`.
#[verifier::external_body]
fn replace_extras(carrier: &[u8], extras: &str) -> (r: Result<Vec<u8>, String>)
    requires
        glb_header_sound(carrier@),
    ensures
        r is Ok <==> document_with_extras(carrier@, extras@) is Some,
        r is Ok ==> r->Ok_0@ == document_with_extras(carrier@, extras@)->Some_0,
{
    let gltf = gltf::Gltf::from_slice(carrier).map_err(|e| e.to_string())?;
    let mut json = gltf.document.into_json();
    let raw = serde_json::value::RawValue::from_string(extras.to_string());
    let scene = json.scenes.first_mut().ok_or_else(|| "no scene".to_string())?;
    scene.extras = Some(raw.map_err(|e| e.to_string())?);
    gltf_json::serialize::to_string(&json).map(String::into_bytes).map_err(|e| e.to_string())
}

/// Calls `Glb::from_slice` and hands out the header's length field and the
/// length of the JSON chunk. The parser reads the first as the
/// little-endian number at bytes 8 to 12 and the second as the one at
/// bytes 12 to 16, the length field of the first chunk, and fails on a
/// buffer too short to hold both headers.
#[verifier::external_body]
fn read_glb_lengths(carrier: &[u8]) -> (r: Result<(u32, usize), String>)
    requires
        glb_header_sound(carrier@),
    ensures
        r is Ok <==> glb_lengths(carrier@) is Some,
        r is Ok ==> (r->Ok_0.0, r->Ok_0.1 as nat) == glb_lengths(carrier@)->Some_0,
        r is Ok ==> carrier@.len() >= 20 && r->Ok_0.0 == le_value(carrier@.subrange(8, 12))
            && r->Ok_0.1 == le_value(carrier@.subrange(12, 16)),
{
    let glb = gltf::binary::Glb::from_slice(carrier).map_err(|e| e.to_string())?;
    Ok((glb.header.length, glb.json.len()))
}

/// Calls `Glb::from_slice`, replaces the JSON chunk and the header's
/// length field, and calls `Glb::to_vec`.
#[verifier::external_body]
fn rebuild_glb(carrier: &[u8], json: &[u8], length: u32) -> (r: Result<Vec<u8>, String>)
    requires
        glb_header_sound(carrier@),
    ensures
        r is Ok <==> glb_with_json(carrier@, json@, length) is Some,
        r is Ok ==> r->Ok_0@ == glb_with_json(carrier@, json@, length)->Some_0,
{
    let mut glb = gltf::binary::Glb::from_slice(carrier).map_err(|e| e.to_string())?;
    glb.header.length = length;
    glb.json = std::borrow::Cow::Owned(json.to_vec());
    glb.to_vec().map_err(|e| e.to_string())
}

/// Calls `Engine::encode` on the standard base64 engine. The engine reads
/// its own text back as the bytes it was given. It cannot size the text
/// for more than half the addressable bytes.
#[verifier::external_body]
fn base64_encode(bytes: &[u8]) -> (text: String)
    requires
        bytes@.len() <= usize::MAX / 2,
    ensures
        text@ == base64_text(bytes@),
        base64_bytes(text@) == Some(bytes@),
{
    base64::Engine::encode(&base64::engine::general_purpose::STANDARD, bytes)
}

/// Calls `Engine::decode` on the standard base64 engine.
#[verifier::external_body]
fn base64_decode(text: &str) -> (r: Result<Vec<u8>, String>)
    ensures
        r is Ok <==> base64_bytes(text@) is Some,
        r is Ok ==> r->Ok_0@ == base64_bytes(text@)->Some_0,
{
    base64::Engine::decode(&base64::engine::general_purpose::STANDARD, text).map_err(
        |e| e.to_string(),
    )
}

/// What the rebuilt file is, given the written document and the carrier's
/// lengths: `Invalid` where the new header length cannot be stated,
/// `Dependency` where the file cannot be read or written.
pub open spec fn rebuilt_file(carrier: Seq<u8>, json: Seq<u8>) -> Result<Seq<u8>, ErrorKind> {
    match glb_lengths(carrier) {
        None => Err(ErrorKind::Dependency),
        Some(lengths) => match header_length(lengths.0, lengths.1, json.len()) {
            None => Err(ErrorKind::Invalid),
            Some(length) => match glb_with_json(carrier, json, length) {
                None => Err(ErrorKind::Dependency),
                Some(bytes) => Ok(bytes),
            },
        },
    }
}

/// The encoded file. `Dependency` where the carrier does not parse;
/// `Invalid` where it has no scene, where the payload is too long to be
/// written as text, or where the extras of the first scene are no JSON
/// object; else the carrier rebuilt around the document whose first
/// scene's extras hold the payload as base64 text under the key `occule`.
/// Extras that are absent count as an empty object.
pub open spec fn extras_encoding(carrier: Seq<u8>, payload: Seq<u8>) -> Result<
    Seq<u8>,
    ErrorKind,
> {
    if !glb_header_sound(carrier) {
        Err(ErrorKind::Dependency)
    } else {
        match scene_extras(carrier) {
            None => Err(ErrorKind::Dependency),
            Some(None) => Err(ErrorKind::Invalid),
            Some(Some(extras)) => if payload.len() > usize::MAX / 2 {
                Err(ErrorKind::Invalid)
            } else {
                let text = match extras {
                    Some(text) => text,
                    None => "{}"@,
                };
                match json_with_entry(text, "occule"@, base64_text(payload)) {
                    None => Err(ErrorKind::Dependency),
                    Some(None) => Err(ErrorKind::Invalid),
                    Some(Some(edited)) => match document_with_extras(carrier, edited) {
                        None => Err(ErrorKind::Dependency),
                        Some(json) => rebuilt_file(carrier, json),
                    },
                }
            },
        }
    }
}

/// The payload held by the given extras of a first scene: `NotEncoded`
/// where there are none, or they hold no string under the key `occule`;
/// `Dependency` where that string is not base64.
pub open spec fn extras_payload(extras: Option<Seq<char>>) -> Result<Seq<u8>, ErrorKind> {
    match extras {
        None => Err(ErrorKind::NotEncoded),
        Some(text) => match json_entry(text, "occule"@) {
            None => Err(ErrorKind::NotEncoded),
            Some(encoded) => match base64_bytes(encoded) {
                None => Err(ErrorKind::Dependency),
                Some(payload) => Ok(payload),
            },
        },
    }
}

/// The carrier and the payload for an encoded file. The carrier that comes
/// back is the encoded file as it stands: the entry is not taken out.
pub open spec fn extras_decoding(encoded: Seq<u8>) -> Result<(Seq<u8>, Seq<u8>), ErrorKind> {
    if !glb_header_sound(encoded) {
        Err(ErrorKind::Dependency)
    } else {
        match scene_extras(encoded) {
            None => Err(ErrorKind::Dependency),
            Some(None) => Err(ErrorKind::NotEncoded),
            Some(Some(extras)) => match extras_payload(extras) {
                Err(kind) => Err(kind),
                Ok(payload) => Ok((encoded, payload)),
            },
        }
    }
}

/// Reads the payload from the extras of a first scene.
pub fn payload_of_extras(extras: Option<String>) -> (r: Result<Vec<u8>, CodecError>)
    ensures
        match r {
            Ok(payload) => extras_payload(extras_view(extras)) == Ok::<Seq<u8>, ErrorKind>(
                payload@,
            ),
            Err(e) => extras_payload(extras_view(extras)) == Err::<Seq<u8>, ErrorKind>(
                e.kind_spec(),
            ),
        },
{
    let text = match extras {
        Some(text) => text,
        None => {
            return Err(CodecError::DataNotEncoded);
        },
    };
    let encoded = match take_entry(text.as_str(), "occule") {
        Some(encoded) => encoded,
        None => {
            return Err(CodecError::DataNotEncoded);
        },
    };
    match base64_decode(encoded.as_str()) {
        Ok(payload) => Ok(payload),
        Err(message) => Err(CodecError::DependencyError(message)),
    }
}

/// The text of optional extras.
pub open spec fn extras_view(extras: Option<String>) -> Option<Seq<char>> {
    match extras {
        Some(text) => Some(text@),
        None => None,
    }
}

/// Codec for embedding data in the `extras` entry of the first scene of a
/// glTF file. The data is stored as base64 text.
#[derive(Clone, Copy, Debug, Default)]
pub struct ExtrasEntryCodec;

impl Codec for ExtrasEntryCodec {
    open spec fn encoding(&self, carrier: Seq<u8>, payload: Seq<u8>) -> Result<Seq<u8>, ErrorKind> {
        extras_encoding(carrier, payload)
    }

    open spec fn decoding(&self, encoded: Seq<u8>) -> Result<(Seq<u8>, Seq<u8>), ErrorKind> {
        extras_decoding(encoded)
    }

    fn encode(&self, carrier: &[u8], payload: &[u8]) -> (r: Result<Vec<u8>, CodecError>) {
        if !check_glb_header(carrier) {
            return Err(CodecError::DependencyError("could not completely read the object".to_string()));
        }
        let extras = match read_scene_extras(carrier) {
            Ok(Some(extras)) => extras,
            Ok(None) => {
                return Err(CodecError::DataInvalid("Carrier has no scene".to_string()));
            },
            Err(message) => {
                return Err(CodecError::DependencyError(message));
            },
        };
        if payload.len() > usize::MAX / 2 {
            return Err(CodecError::DataInvalid("Payload Too Big for Carrier".to_string()));
        }
        let text = match extras {
            Some(text) => text,
            None => String::from_str("{}"),
        };
        let encoded = base64_encode(payload);
        let edited = match insert_entry(text.as_str(), "occule", encoded.as_str()) {
            Ok(Some(edited)) => edited,
            Ok(None) => {
                return Err(
                    CodecError::DataInvalid("Carrier has extras in non-object format".to_string()),
                );
            },
            Err(message) => {
                return Err(CodecError::DependencyError(message));
            },
        };
        let json = match replace_extras(carrier, edited.as_str()) {
            Ok(json) => json,
            Err(message) => {
                return Err(CodecError::DependencyError(message));
            },
        };
        let (length, old_json) = match read_glb_lengths(carrier) {
            Ok(lengths) => lengths,
            Err(message) => {
                return Err(CodecError::DependencyError(message));
            },
        };
        let new_length = match new_header_length(length, old_json, json.len()) {
            Some(new_length) => new_length,
            None => {
                return Err(CodecError::DataInvalid("Payload Too Big for Carrier".to_string()));
            },
        };
        match rebuild_glb(carrier, json.as_slice(), new_length) {
            Ok(bytes) => Ok(bytes),
            Err(message) => Err(CodecError::DependencyError(message)),
        }
    }

    fn decode(&self, encoded: &[u8]) -> (r: Result<(Vec<u8>, Vec<u8>), CodecError>) {
        if !check_glb_header(encoded) {
            return Err(CodecError::DependencyError("could not completely read the object".to_string()));
        }
        let extras = match read_scene_extras(encoded) {
            Ok(Some(extras)) => extras,
            Ok(None) => {
                return Err(CodecError::DataNotEncoded);
            },
            Err(message) => {
                return Err(CodecError::DependencyError(message));
            },
        };
        match payload_of_extras(extras) {
            Ok(payload) => {
                let mut carrier: Vec<u8> = Vec::new();
                carrier.extend_from_slice(encoded);
                assert(carrier@ =~= encoded@);
                Ok((carrier, payload))
            },
            Err(e) => Err(e),
        }
    }
}

} // verus!
