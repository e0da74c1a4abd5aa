//! Payload carried in the low bits of the pixels of an image file.
//!
//! The file is decoded to pixels, the payload is written over them as
//! `ChampleveCodec` does, and the pixels are written out again in the
//! container format that the carrier came in.

use vstd::prelude::*;
use crate::codec::{Codec, CodecError, ErrorKind};
use crate::lossless::champleve::{champleve_decoding, champleve_encoding,
    lemma_champleve_round_trip, ChampleveCodec, ChampleveError};
use crate::lossless::pixel::{is_end_of_data, is_marker_pixel};
use crate::lossless::raster::{check_encoded_form, is_encoded_form, lemma_encoding_is_encoded_form,
    lemma_image_is_raster, lemma_not_encoded_form, pixel_at, ColorFormat, PixelImage,
    PixelImageView};

verus! {

/// The container formats of the `image` crate, as an opaque value.
#[verifier::external_type_specification]
#[verifier::external_body]
pub struct ExImageFormat(image::ImageFormat);

/// The container format that `image::guess_format` finds for a buffer, or
/// `None` where it finds none.
pub uninterp spec fn guessed_format(carrier: Seq<u8>) -> Option<image::ImageFormat>;

/// The image that `image::load_from_memory_with_format` decodes from a
/// buffer read as the given container format, or `None` where it fails.
pub uninterp spec fn loaded_image(carrier: Seq<u8>, format: image::ImageFormat) -> Option<
    PixelImageView,
>;

/// The file that the `image` crate writes for RGB pixels of one byte per
/// channel in the given container format, or `None` where it fails.
pub uninterp spec fn written_rgb8(width: u32, height: u32, data: Seq<u8>, format: image::ImageFormat) -> Option<
    Seq<u8>,
>;

/// The file that the `image` crate writes for RGBA pixels of one byte per
/// channel in the given container format, or `None` where it fails.
pub uninterp spec fn written_rgba8(width: u32, height: u32, data: Seq<u8>, format: image::ImageFormat) -> Option<
    Seq<u8>,
>;

/// Calls `image::guess_format`, which looks at the first bytes of the
/// buffer. Nothing is claimed of the format found but that it depends on
/// the buffer alone.
#[verifier::external_body]
fn guess_format(carrier: &[u8]) -> (r: Result<image::ImageFormat, String>)
    ensures
        r.ok() == guessed_format(carrier@),
{
    image::guess_format(carrier).map_err(|e| e.to_string())
}

/// Calls `image::load_from_memory_with_format`, which runs the decoder
/// that the crate has built in for the format, and hands the decoded image
/// out as plain values: its dimensions, its colour type and its raw bytes.
/// What they hold depends on the buffer and the format alone.
#[verifier::external_body]
fn load_image(carrier: &[u8], format: image::ImageFormat) -> (r: Result<PixelImage, String>)
    ensures
        r is Ok <==> loaded_image(carrier@, format) is Some,
        r is Ok ==> r->Ok_0@ == loaded_image(carrier@, format)->Some_0,
{
    let image = image::load_from_memory_with_format(carrier, format).map_err(|e| e.to_string())?;
    let format = match image.color() {
        image::ColorType::L8 => ColorFormat::L8,
        image::ColorType::La8 => ColorFormat::La8,
        image::ColorType::Rgb8 => ColorFormat::Rgb8,
        image::ColorType::Rgba8 => ColorFormat::Rgba8,
        image::ColorType::L16 => ColorFormat::L16,
        image::ColorType::La16 => ColorFormat::La16,
        image::ColorType::Rgb16 => ColorFormat::Rgb16,
        image::ColorType::Rgba16 => ColorFormat::Rgba16,
        image::ColorType::Rgb32F => ColorFormat::Rgb32F,
        image::ColorType::Rgba32F => ColorFormat::Rgba32F,
        other => return Err(format!("{other:?}")),
    };
    Ok(PixelImage { width: image.width(), height: image.height(), format, data: image.into_bytes() })
}

/// Builds an RGB image over the bytes and calls `DynamicImage::write_to`.
/// The bytes must be exactly `width * height` pixels. Nothing is claimed of
/// the file but that it depends on the arguments alone.
#[verifier::external_body]
fn write_rgb8(width: u32, height: u32, data: &Vec<u8>, format: image::ImageFormat) -> (r: Result<
    Vec<u8>,
    String,
>)
    requires
        data@.len() == (width as nat) * (height as nat) * 3,
    ensures
        r is Ok <==> written_rgb8(width, height, data@, format) is Some,
        r is Ok ==> r->Ok_0@ == written_rgb8(width, height, data@, format)->Some_0,
{
    let buffer = image::RgbImage::from_raw(width, height, data.clone()).unwrap();
    let mut out = std::io::Cursor::new(Vec::new());
    let done = image::DynamicImage::ImageRgb8(buffer).write_to(&mut out, format);
    done.map(|_| out.into_inner()).map_err(|e| e.to_string())
}

/// Builds an RGBA image over the bytes and calls `DynamicImage::write_to`.
/// The bytes must be exactly `width * height` pixels. Nothing is claimed of
/// the file but that it depends on the arguments alone.
#[verifier::external_body]
fn write_rgba8(width: u32, height: u32, data: &Vec<u8>, format: image::ImageFormat) -> (r: Result<
    Vec<u8>,
    String,
>)
    requires
        data@.len() == (width as nat) * (height as nat) * 4,
    ensures
        r is Ok <==> written_rgba8(width, height, data@, format) is Some,
        r is Ok ==> r->Ok_0@ == written_rgba8(width, height, data@, format)->Some_0,
{
    let buffer = image::RgbaImage::from_raw(width, height, data.clone()).unwrap();
    let mut out = std::io::Cursor::new(Vec::new());
    let done = image::DynamicImage::ImageRgba8(buffer).write_to(&mut out, format);
    done.map(|_| out.into_inner()).map_err(|e| e.to_string())
}

/// The file for an image whose pixels can carry payload.
pub open spec fn written_image(image: PixelImageView, format: image::ImageFormat) -> Option<
    Seq<u8>,
> {
    if image.format == ColorFormat::Rgba8 {
        written_rgba8(image.width as u32, image.height as u32, image.data, format)
    } else {
        written_rgb8(image.width as u32, image.height as u32, image.data, format)
    }
}

/// The encoded file for the decoded carrier: the payload is written over
/// its pixels and the pixels are written out in `format`. A payload that
/// does not fit, or pixels that cannot carry it, are `Invalid`; a failure
/// of the writer is `Dependency`.
pub open spec fn lsb_encoding_of(
    image: PixelImageView,
    format: image::ImageFormat,
    payload: Seq<u8>,
) -> Result<Seq<u8>, ErrorKind> {
    match champleve_encoding(image, payload) {
        Err(_) => Err(ErrorKind::Invalid),
        Ok(written) => match written_image(written, format) {
            Some(bytes) => Ok(bytes),
            None => Err(ErrorKind::Dependency),
        },
    }
}

/// The container format and the pixels of a file: `None` where the format
/// is not recognised, the file cannot be decoded as that format, or what
/// was decoded is not as long as its dimensions call for.
pub open spec fn opened_image(carrier: Seq<u8>) -> Option<(image::ImageFormat, PixelImageView)> {
    match guessed_format(carrier) {
        None => None,
        Some(format) => match loaded_image(carrier, format) {
            None => None,
            Some(image) => if image.wf() {
                Some((format, image))
            } else {
                None
            },
        },
    }
}

/// The encoded file for a carrier file: `Dependency` where the carrier
/// cannot be opened, else as `lsb_encoding_of` says for the decoded
/// carrier.
pub open spec fn lsb_encoding(carrier: Seq<u8>, payload: Seq<u8>) -> Result<Seq<u8>, ErrorKind> {
    match opened_image(carrier) {
        None => Err(ErrorKind::Dependency),
        Some(opened) => lsb_encoding_of(opened.1, opened.0, payload),
    }
}

/// The carrier file and the payload for the decoded file. `Invalid` where
/// the pixels are not three or four channels of one byte; `NotEncoded`
/// where the pixels are not of encoded form, so that encoding cannot have
/// written them; else the payload is read off the pixels, its bits are
/// cleared, and the pixels are written out in `format`, which is
/// `Dependency` where the writer fails.
pub open spec fn lsb_decoding_of(image: PixelImageView, format: image::ImageFormat) -> Result<
    (Seq<u8>, Seq<u8>),
    ErrorKind,
> {
    match champleve_decoding(image) {
        Err(_) => Err(ErrorKind::Invalid),
        Ok(pair) => if !is_encoded_form(image.data, image.format.bytes_per_pixel_spec() as int) {
            Err(ErrorKind::NotEncoded)
        } else {
            match written_image(pair.0, format) {
                Some(bytes) => Ok((bytes, pair.1)),
                None => Err(ErrorKind::Dependency),
            }
        },
    }
}

/// The carrier and the payload for an encoded file: `Dependency` where the
/// file cannot be opened, else as `lsb_decoding_of` says for the decoded
/// file.
pub open spec fn lsb_decoding(encoded: Seq<u8>) -> Result<(Seq<u8>, Seq<u8>), ErrorKind> {
    match opened_image(encoded) {
        None => Err(ErrorKind::Dependency),
        Some(opened) => lsb_decoding_of(opened.1, opened.0),
    }
}

/// Decodes a file to its container format and its pixels.
fn open_image(carrier: &[u8]) -> (r: Result<(image::ImageFormat, PixelImage), CodecError>)
    ensures
        match r {
            Ok(pair) => opened_image(carrier@) == Some((pair.0, pair.1@)) && pair.1.wf(),
            Err(e) => e.kind_spec() == ErrorKind::Dependency && opened_image(carrier@) is None,
        },
{
    let format = match guess_format(carrier) {
        Ok(format) => format,
        Err(message) => {
            return Err(CodecError::DependencyError(message));
        },
    };
    let image = match load_image(carrier, format) {
        Ok(image) => image,
        Err(message) => {
            return Err(CodecError::DependencyError(message));
        },
    };
    if !image.is_well_formed() {
        return Err(
            CodecError::DependencyError("Decoded image does not match its dimensions".to_string()),
        );
    }
    Ok((format, image))
}

/// Writes the pixels of an image that can carry payload to a file.
fn write_image(image: &PixelImage, format: image::ImageFormat) -> (r: Result<Vec<u8>, CodecError>)
    requires
        image.wf(),
        image.format.carries_payload_spec(),
    ensures
        match r {
            Ok(bytes) => written_image(image@, format) == Some(bytes@),
            Err(e) => written_image(image@, format) is None && e.kind_spec()
                == ErrorKind::Dependency,
        },
{
    let written = match image.format {
        ColorFormat::Rgba8 => write_rgba8(image.width, image.height, &image.data, format),
        _ => write_rgb8(image.width, image.height, &image.data, format),
    };
    match written {
        Ok(bytes) => Ok(bytes),
        Err(message) => Err(CodecError::DependencyError(message)),
    }
}

/// Writes `payload` over the pixels of a decoded carrier and writes the
/// pixels out in `format`.
pub fn encode_image(image: PixelImage, format: image::ImageFormat, payload: &[u8]) -> (r: Result<
    Vec<u8>,
    CodecError,
>)
    requires
        image.wf(),
    ensures
        crate::codec::encoded_view(r) == lsb_encoding_of(image@, format, payload@),
{
    let mut bytes: Vec<u8> = Vec::new();
    bytes.extend_from_slice(payload);
    assert(bytes@ =~= payload@);
    match ChampleveCodec.encode(image, bytes) {
        Ok(written) => write_image(&written, format),
        Err(ChampleveError::PayloadTooBig) => Err(
            CodecError::DataInvalid("Payload Too Big for Carrier".to_string()),
        ),
        Err(ChampleveError::UnsupportedFormat { .. }) => Err(
            CodecError::DataInvalid("Unsupported Image Color Format".to_string()),
        ),
    }
}

/// Reads the payload off the pixels of a decoded file, clears its bits and
/// writes the pixels out in `format`. Pixels that encoding cannot have
/// written are refused as `DataNotEncoded`.
pub fn decode_image(image: PixelImage, format: image::ImageFormat) -> (r: Result<
    (Vec<u8>, Vec<u8>),
    CodecError,
>)
    requires
        image.wf(),
    ensures
        crate::codec::decoded_view(r) == lsb_decoding_of(image@, format),
{
    if !image.format.carries_payload() {
        return Err(CodecError::DataInvalid("Unsupported Image Color Format".to_string()));
    }
    proof {
        lemma_image_is_raster(image@);
    }
    if !check_encoded_form(image.data.as_slice(), image.format.bytes_per_pixel()) {
        return Err(CodecError::DataNotEncoded);
    }
    match ChampleveCodec.decode(image) {
        Ok((cleared, payload)) => match write_image(&cleared, format) {
            Ok(bytes) => Ok((bytes, payload)),
            Err(e) => Err(e),
        },
        Err(_) => Err(CodecError::DataInvalid("Unsupported Image Color Format".to_string())),
    }
}

/// Least-significant-bit steganography in the colours of an image. The
/// low three bits of each colour channel are given up, which is permanent,
/// so that each pixel holds one byte of payload; the ninth bit is unused,
/// and bit 0 of the last channel signals the end of data.
#[derive(Clone, Copy, Debug, Default)]
pub struct LsbCodec;

impl Codec for LsbCodec {
    open spec fn encoding(&self, carrier: Seq<u8>, payload: Seq<u8>) -> Result<Seq<u8>, ErrorKind> {
        lsb_encoding(carrier, payload)
    }

    open spec fn decoding(&self, encoded: Seq<u8>) -> Result<(Seq<u8>, Seq<u8>), ErrorKind> {
        lsb_decoding(encoded)
    }

    fn encode(&self, carrier: &[u8], payload: &[u8]) -> (r: Result<Vec<u8>, CodecError>) {
        match open_image(carrier) {
            Ok((format, image)) => encode_image(image, format, payload),
            Err(e) => Err(e),
        }
    }

    fn decode(&self, encoded: &[u8]) -> (r: Result<(Vec<u8>, Vec<u8>), CodecError>) {
        match open_image(encoded) {
            Ok((format, image)) => decode_image(image, format),
            Err(e) => Err(e),
        }
    }
}

/// Decoding an encoded file gives the payload back, for every payload of
/// at most one byte per pixel of a carrier of three or four channels,
/// whenever the container keeps the pixels: the encoded file opens as the
/// pixels that were written, and the writer writes them once more with the
/// payload bits cleared. The carrier that comes back is not the carrier
/// that went in.
pub proof fn lemma_lsb_round_trip(carrier: Seq<u8>, payload: Seq<u8>)
    requires
        opened_image(carrier) is Some,
        opened_image(carrier)->Some_0.1.format.carries_payload_spec(),
        payload.len() <= opened_image(carrier)->Some_0.1.pixel_count(),
        lsb_encoding(carrier, payload) is Ok,
        opened_image(lsb_encoding(carrier, payload)->Ok_0) is Some,
        opened_image(lsb_encoding(carrier, payload)->Ok_0)->Some_0.1 == champleve_encoding(
            opened_image(carrier)->Some_0.1,
            payload,
        )->Ok_0,
        written_image(
            champleve_decoding(
                champleve_encoding(opened_image(carrier)->Some_0.1, payload)->Ok_0,
            )->Ok_0.0,
            opened_image(lsb_encoding(carrier, payload)->Ok_0)->Some_0.0,
        ) is Some,
    ensures
        lsb_decoding(lsb_encoding(carrier, payload)->Ok_0) is Ok,
        lsb_decoding(lsb_encoding(carrier, payload)->Ok_0)->Ok_0.1 == payload,
{
    let image = opened_image(carrier)->Some_0.1;
    lemma_champleve_round_trip(image, payload);
    lemma_image_is_raster(image);
    lemma_encoding_is_encoded_form(
        image.data,
        image.format.bytes_per_pixel_spec() as int,
        payload,
    );
}

/// Encoding refuses, as `Invalid`, every payload with more bytes than the
/// carrier has pixels, and every carrier whose pixels are not three or four
/// channels of one byte.
pub proof fn lemma_lsb_rejects(carrier: Seq<u8>, payload: Seq<u8>)
    requires
        opened_image(carrier) is Some,
        payload.len() > opened_image(carrier)->Some_0.1.pixel_count() || !opened_image(
            carrier,
        )->Some_0.1.format.carries_payload_spec(),
    ensures
        lsb_encoding(carrier, payload) == Err::<Seq<u8>, ErrorKind>(ErrorKind::Invalid),
{
}

/// Decoding refuses, as `NotEncoded`, every file whose pixels encoding
/// cannot have written: a file is taken for encoded only if writing its
/// own payload over its pixels changes nothing in them.
pub proof fn lemma_lsb_decodes_only_encoded_pixels(encoded: Seq<u8>)
    requires
        lsb_decoding(encoded) is Ok,
    ensures
        opened_image(encoded) is Some,
        champleve_encoding(
            opened_image(encoded)->Some_0.1,
            lsb_decoding(encoded)->Ok_0.1,
        ) == Ok::<PixelImageView, ChampleveError>(opened_image(encoded)->Some_0.1),
{
    let image = opened_image(encoded)->Some_0.1;
    let channels = image.format.bytes_per_pixel_spec() as int;
    lemma_image_is_raster(image);
    crate::lossless::raster::lemma_encoded_form_is_fixed_point(image.data, channels);
    assert(image.with_data(image.data) == image);
}

/// Decoding refuses, as `NotEncoded`, every image of three or four
/// channels in which a pixel with the end-of-data marker has other low
/// bits set, or in which a pixel behind a pixel with the marker has none.
pub proof fn lemma_lsb_rejects_unencoded_pixels(
    image: PixelImageView,
    format: image::ImageFormat,
    i: int,
    j: int,
)
    requires
        image.wf(),
        image.format.carries_payload_spec(),
        0 <= i <= j < image.pixel_count(),
        is_end_of_data(pixel_at(image.data, image.format.bytes_per_pixel_spec() as int, i)),
        !is_marker_pixel(pixel_at(image.data, image.format.bytes_per_pixel_spec() as int, i))
            || !is_end_of_data(
            pixel_at(image.data, image.format.bytes_per_pixel_spec() as int, j),
        ),
    ensures
        lsb_decoding_of(image, format) == Err::<(Seq<u8>, Seq<u8>), ErrorKind>(
            ErrorKind::NotEncoded,
        ),
{
    lemma_image_is_raster(image);
    lemma_not_encoded_form(image.data, image.format.bytes_per_pixel_spec() as int, i, j);
}

} // verus!
