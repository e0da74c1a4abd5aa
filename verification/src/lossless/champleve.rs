//! Payload carried in the low bits of an image that is already decoded.

use vstd::prelude::*;
use crate::lossless::raster::{embed_payload, extract_payload, lemma_image_is_raster,
    raster_after_decoding, raster_encoding, raster_payload, ColorFormat, PixelImage,
    PixelImageView};

verus! {

/// Errors of `ChampleveCodec`.
#[derive(Clone, Copy, Debug, PartialEq, Eq, Structural)]
pub enum ChampleveError {
    /// The payload has more bytes than the carrier has pixels.
    PayloadTooBig,
    /// The carrier's pixels are not three or four channels of one byte.
    UnsupportedFormat {
        /// The layout that the carrier has.
        format: ColorFormat,
    },
}

/// The carrier after `payload` has been written over its pixels, one byte
/// per pixel in raster order. A payload longer than the pixel count is
/// refused first; then a pixel layout that cannot carry payload.
pub open spec fn champleve_encoding(carrier: PixelImageView, payload: Seq<u8>) -> Result<
    PixelImageView,
    ChampleveError,
> {
    if carrier.pixel_count() < payload.len() {
        Err(ChampleveError::PayloadTooBig)
    } else if !carrier.format.carries_payload_spec() {
        Err(ChampleveError::UnsupportedFormat { format: carrier.format })
    } else {
        Ok(
            carrier.with_data(
                raster_encoding(
                    carrier.data,
                    carrier.format.bytes_per_pixel_spec() as int,
                    payload,
                ),
            ),
        )
    }
}

/// The carrier with the payload bits cleared, and the payload: the bytes of
/// the pixels before the first end-of-data pixel.
pub open spec fn champleve_decoding(encoded: PixelImageView) -> Result<
    (PixelImageView, Seq<u8>),
    ChampleveError,
> {
    if !encoded.format.carries_payload_spec() {
        Err(ChampleveError::UnsupportedFormat { format: encoded.format })
    } else {
        let channels = encoded.format.bytes_per_pixel_spec() as int;
        Ok(
            (
                encoded.with_data(raster_after_decoding(encoded.data, channels)),
                raster_payload(encoded.data, channels),
            ),
        )
    }
}

/// The mathematical content of an `encode` result.
pub open spec fn champleve_encoded_view(r: Result<PixelImage, ChampleveError>) -> Result<
    PixelImageView,
    ChampleveError,
> {
    match r {
        Ok(image) => Ok(image@),
        Err(e) => Err(e),
    }
}

/// The mathematical content of a `decode` result.
pub open spec fn champleve_decoded_view(
    r: Result<(PixelImage, Vec<u8>), ChampleveError>,
) -> Result<(PixelImageView, Seq<u8>), ChampleveError> {
    match r {
        Ok(pair) => Ok((pair.0@, pair.1@)),
        Err(e) => Err(e),
    }
}

/// Stores one byte of payload in the low bits of each pixel of an RGB or
/// RGBA image, and marks the pixels past the payload as end of data. The
/// low bits of the carrier are lost.
#[derive(Clone, Copy, Debug)]
pub struct ChampleveCodec;

impl ChampleveCodec {
    /// Writes `payload` over the pixels of `carrier`.
    pub fn encode(&self, carrier: PixelImage, payload: Vec<u8>) -> (r: Result<
        PixelImage,
        ChampleveError,
    >)
        requires
            carrier.wf(),
        ensures
            champleve_encoded_view(r) == champleve_encoding(carrier@, payload@),
            r is Ok ==> r->Ok_0.wf(),
    {
        let mut image = carrier;
        if image.pixel_count() < payload.len() as u64 {
            return Err(ChampleveError::PayloadTooBig);
        }
        if !image.format.carries_payload() {
            return Err(ChampleveError::UnsupportedFormat { format: image.format });
        }
        proof {
            lemma_image_is_raster(image@);
        }
        let channels: usize = image.format.bytes_per_pixel();
        embed_payload(&mut image.data, channels, payload.as_slice());
        Ok(image)
    }

    /// Reads the payload off the pixels of `carrier` and clears the bits
    /// that held it.
    pub fn decode(&self, carrier: PixelImage) -> (r: Result<(PixelImage, Vec<u8>), ChampleveError>)
        requires
            carrier.wf(),
        ensures
            champleve_decoded_view(r) == champleve_decoding(carrier@),
            r is Ok ==> r->Ok_0.0.wf(),
    {
        let mut image = carrier;
        if !image.format.carries_payload() {
            return Err(ChampleveError::UnsupportedFormat { format: image.format });
        }
        proof {
            lemma_image_is_raster(image@);
        }
        let channels: usize = image.format.bytes_per_pixel();
        let payload = extract_payload(&mut image.data, channels);
        Ok((image, payload))
    }
}

/// Decoding an encoded image gives the payload back, whenever the image has
/// at least as many pixels as the payload has bytes. The carrier that comes
/// back is not the one that went in: its low bits are lost.
pub proof fn lemma_champleve_round_trip(carrier: PixelImageView, payload: Seq<u8>)
    requires
        carrier.wf(),
        carrier.format.carries_payload_spec(),
        payload.len() <= carrier.pixel_count(),
    ensures
        champleve_encoding(carrier, payload) is Ok,
        champleve_encoding(carrier, payload)->Ok_0.wf(),
        champleve_decoding(champleve_encoding(carrier, payload)->Ok_0) is Ok,
        champleve_decoding(champleve_encoding(carrier, payload)->Ok_0)->Ok_0.1 == payload,
        champleve_decoding(champleve_encoding(carrier, payload)->Ok_0)->Ok_0.0.wf(),
{
    lemma_image_is_raster(carrier);
    crate::lossless::raster::lemma_raster_round_trip(
        carrier.data,
        carrier.format.bytes_per_pixel_spec() as int,
        payload,
    );
}

/// Encoding refuses every payload with more bytes than the carrier has
/// pixels, and every carrier whose pixels cannot carry payload.
pub proof fn lemma_champleve_rejects(carrier: PixelImageView, payload: Seq<u8>)
    requires
        payload.len() > carrier.pixel_count() || !carrier.format.carries_payload_spec(),
    ensures
        champleve_encoding(carrier, payload) is Err,
{
}

} // verus!
