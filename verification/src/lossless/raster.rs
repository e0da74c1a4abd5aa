//! A decoded image as plain values, and the payload laid over its pixels.
//!
//! Pixels are visited in raster order. Each of the first `payload.len()`
//! pixels carries one payload byte; every pixel after them carries the
//! end-of-data marker.

use vstd::prelude::*;
use crate::lossless::pixel::{check_end_of_data, check_marker_pixel, check_payload_pixel,
    decode_pixel, encode_pixel, is_end_of_data, is_marker_pixel, is_payload_pixel,
    lemma_marker_pixel_is_fixed, lemma_payload_pixel_is_fixed, lemma_pixel_end_marker,
    lemma_pixel_round_trip, lemma_written_pixel_forms, pixel_after_decoding, pixel_byte,
    pixel_encoding};

verus! {

/// The layout of one pixel in memory.
#[derive(Clone, Copy, Debug, PartialEq, Eq, Structural)]
pub enum ColorFormat {
    /// 8-bit luminance.
    L8,
    /// 8-bit luminance with alpha.
    La8,
    /// 8-bit red, green and blue.
    Rgb8,
    /// 8-bit red, green, blue and alpha.
    Rgba8,
    /// 16-bit luminance.
    L16,
    /// 16-bit luminance with alpha.
    La16,
    /// 16-bit red, green and blue.
    Rgb16,
    /// 16-bit red, green, blue and alpha.
    Rgba16,
    /// 32-bit floating-point red, green and blue.
    Rgb32F,
    /// 32-bit floating-point red, green, blue and alpha.
    Rgba32F,
}

impl ColorFormat {
    /// The number of bytes that one pixel takes.
    pub open spec fn bytes_per_pixel_spec(self) -> nat {
        match self {
            ColorFormat::L8 => 1,
            ColorFormat::La8 => 2,
            ColorFormat::Rgb8 => 3,
            ColorFormat::Rgba8 => 4,
            ColorFormat::L16 => 2,
            ColorFormat::La16 => 4,
            ColorFormat::Rgb16 => 6,
            ColorFormat::Rgba16 => 8,
            ColorFormat::Rgb32F => 12,
            ColorFormat::Rgba32F => 16,
        }
    }

    /// The number of bytes that one pixel takes.
    pub fn bytes_per_pixel(self) -> (n: usize)
        ensures
            n == self.bytes_per_pixel_spec(),
    {
        match self {
            ColorFormat::L8 => 1,
            ColorFormat::La8 => 2,
            ColorFormat::Rgb8 => 3,
            ColorFormat::Rgba8 => 4,
            ColorFormat::L16 => 2,
            ColorFormat::La16 => 4,
            ColorFormat::Rgb16 => 6,
            ColorFormat::Rgba16 => 8,
            ColorFormat::Rgb32F => 12,
            ColorFormat::Rgba32F => 16,
        }
    }

    /// Whether pixels of this format can carry payload: three or four
    /// channels of one byte each.
    pub open spec fn carries_payload_spec(self) -> bool {
        self == ColorFormat::Rgb8 || self == ColorFormat::Rgba8
    }

    /// Whether pixels of this format can carry payload.
    pub fn carries_payload(self) -> (b: bool)
        ensures
            b == self.carries_payload_spec(),
    {
        match self {
            ColorFormat::Rgb8 => true,
            ColorFormat::Rgba8 => true,
            _ => false,
        }
    }
}

/// A decoded image: its dimensions, its pixel layout and its raw bytes in
/// raster order.
#[derive(Debug)]
pub struct PixelImage {
    /// Width in pixels.
    pub width: u32,
    /// Height in pixels.
    pub height: u32,
    /// Layout of each pixel.
    pub format: ColorFormat,
    /// The pixels, row by row, each `format.bytes_per_pixel()` bytes long.
    pub data: Vec<u8>,
}

/// The mathematical content of a `PixelImage`.
pub struct PixelImageView {
    /// Width in pixels.
    pub width: nat,
    /// Height in pixels.
    pub height: nat,
    /// Layout of each pixel.
    pub format: ColorFormat,
    /// The pixels, row by row.
    pub data: Seq<u8>,
}

impl PixelImageView {
    /// The number of pixels.
    pub open spec fn pixel_count(self) -> nat {
        self.width * self.height
    }

    /// The raw bytes hold exactly `width * height` pixels, and the
    /// dimensions fit 32 bits.
    pub open spec fn wf(self) -> bool {
        &&& self.width <= u32::MAX
        &&& self.height <= u32::MAX
        &&& self.data.len() == self.pixel_count() * self.format.bytes_per_pixel_spec()
    }

    /// The same image over other bytes.
    pub open spec fn with_data(self, data: Seq<u8>) -> PixelImageView {
        PixelImageView { width: self.width, height: self.height, format: self.format, data }
    }
}

impl View for PixelImage {
    type V = PixelImageView;

    open spec fn view(&self) -> PixelImageView {
        PixelImageView {
            width: self.width as nat,
            height: self.height as nat,
            format: self.format,
            data: self.data@,
        }
    }
}

impl PixelImage {
    /// The number of pixels.
    pub open spec fn pixel_count_spec(&self) -> nat {
        (self.width as nat) * (self.height as nat)
    }

    /// The raw bytes hold exactly `width * height` pixels.
    pub open spec fn wf(&self) -> bool {
        self@.wf()
    }

    /// Decides `wf`.
    pub fn is_well_formed(&self) -> (b: bool)
        ensures
            b == self.wf(),
    {
        let count: u64 = pixel_count_of(self.width, self.height);
        let needed: u128 = count as u128 * self.format.bytes_per_pixel() as u128;
        self.data.len() as u128 == needed
    }

    /// An image of the given dimensions and layout over `data`, if `data`
    /// has the length that they call for.
    pub fn new(width: u32, height: u32, format: ColorFormat, data: Vec<u8>) -> (image: Option<
        PixelImage,
    >)
        ensures
            image is Some <==> data@.len() == (width as nat) * (height as nat)
                * format.bytes_per_pixel_spec(),
            image is Some ==> image->Some_0.wf() && image->Some_0.width == width
                && image->Some_0.height == height && image->Some_0.format == format
                && image->Some_0.data@ == data@,
    {
        let image = PixelImage { width, height, format, data };
        if image.is_well_formed() {
            Some(image)
        } else {
            None
        }
    }

    /// The number of pixels.
    pub fn pixel_count(&self) -> (count: u64)
        ensures
            count == self.pixel_count_spec(),
    {
        pixel_count_of(self.width, self.height)
    }
}

/// The product of two dimensions; it always fits 64 bits.
pub fn pixel_count_of(width: u32, height: u32) -> (count: u64)
    ensures
        count == (width as nat) * (height as nat),
{
    assert((width as nat) * (height as nat) <= 0xFFFF_FFFF * 0xFFFF_FFFF) by (nonlinear_arith)
        requires
            width <= 0xFFFF_FFFF,
            height <= 0xFFFF_FFFF,
    ;
    width as u64 * height as u64
}

/// The bytes of pixel `i` in a raster of `channels` bytes per pixel.
pub open spec fn pixel_at(data: Seq<u8>, channels: int, i: int) -> Seq<u8> {
    data.subrange(i * channels, i * channels + channels)
}

/// Whether `data` is a whole number of pixels of three or four channels.
pub open spec fn is_raster(data: Seq<u8>, channels: int) -> bool {
    &&& 3 <= channels <= 4
    &&& data.len() % (channels as nat) == 0
}

/// The raster after `payload` has been written over it: pixel `i` holds
/// byte `i` of the payload, and each pixel past the payload holds a zero
/// byte and the end-of-data marker.
pub open spec fn raster_encoding(data: Seq<u8>, channels: int, payload: Seq<u8>) -> Seq<u8> {
    Seq::new(
        data.len(),
        |k: int|
            {
                let i = k / channels;
                if i < payload.len() {
                    pixel_encoding(pixel_at(data, channels, i), payload[i], false)[k % channels]
                } else {
                    pixel_encoding(pixel_at(data, channels, i), 0, true)[k % channels]
                }
            },
    )
}

/// The number of pixels from pixel `from` on that come before the first
/// end-of-data pixel, or before the end of the raster.
pub open spec fn payload_pixels(data: Seq<u8>, channels: int, from: int) -> nat
    decreases data.len() as int / channels - from,
{
    if channels <= 0 || from < 0 || from >= data.len() as int / channels {
        0
    } else if is_end_of_data(pixel_at(data, channels, from)) {
        0
    } else {
        1 + payload_pixels(data, channels, from + 1)
    }
}

/// The payload that a raster holds: one byte from each pixel before the
/// first end-of-data pixel.
pub open spec fn raster_payload(data: Seq<u8>, channels: int) -> Seq<u8> {
    Seq::new(
        payload_pixels(data, channels, 0),
        |i: int| pixel_byte(pixel_at(data, channels, i)),
    )
}

/// The raster after its payload has been read: the pixels that held
/// payload have the bits that held it cleared, the others are untouched.
pub open spec fn raster_after_decoding(data: Seq<u8>, channels: int) -> Seq<u8> {
    Seq::new(
        data.len(),
        |k: int|
            if k / channels < payload_pixels(data, channels, 0) {
                pixel_after_decoding(pixel_at(data, channels, k / channels))[k % channels]
            } else {
                data[k]
            },
    )
}

/// Where byte `k` of a raster lies: in pixel `i`, at channel `k - i * channels`.
pub proof fn lemma_byte_position(k: int, channels: int, i: int)
    requires
        3 <= channels <= 4,
        i * channels <= k < i * channels + channels,
    ensures
        k / channels == i,
        k % channels == k - i * channels,
{
    if channels == 3 {
        assert(i * 3 <= k < i * 3 + 3);
    } else {
        assert(i * 4 <= k < i * 4 + 4);
    }
}

/// The pixels of a raster lie one after the other, all inside it.
pub proof fn lemma_pixel_bounds(len: int, channels: int, i: int)
    requires
        3 <= channels <= 4,
        len >= 0,
        len % channels == 0,
        0 <= i < len / channels,
    ensures
        0 <= i * channels,
        i * channels + channels <= len,
        (i + 1) * channels == i * channels + channels,
        (len / channels) * channels == len,
{
    if channels == 3 {
        assert(i * 3 + 3 <= len);
    } else {
        assert(i * 4 + 4 <= len);
    }
}

/// A raster is as long as its pixels together.
pub proof fn lemma_raster_len(len: int, channels: int)
    requires
        3 <= channels <= 4,
        len >= 0,
        len % channels == 0,
    ensures
        (len / channels) * channels == len,
{
    if channels == 3 {
        assert((len / 3) * 3 == len);
    } else {
        assert((len / 4) * 4 == len);
    }
}

/// The bytes of a well-formed image of three or four channels are a raster
/// of as many pixels as the image has.
pub proof fn lemma_image_is_raster(image: PixelImageView)
    requires
        image.wf(),
        image.format.carries_payload_spec(),
    ensures
        is_raster(image.data, image.format.bytes_per_pixel_spec() as int),
        image.data.len() as int / (image.format.bytes_per_pixel_spec() as int)
            == image.pixel_count(),
{
    let count = image.pixel_count() as int;
    if image.format == ColorFormat::Rgb8 {
        assert((count * 3) % 3 == 0 && (count * 3) / 3 == count);
    } else {
        assert((count * 4) % 4 == 0 && (count * 4) / 4 == count);
    }
}

/// Pixel `i` of the written raster is pixel `i` of the raster before, with its
/// payload byte, or with the end-of-data marker, written into it.
pub proof fn lemma_encoded_pixel(data: Seq<u8>, channels: int, payload: Seq<u8>, i: int)
    requires
        is_raster(data, channels),
        0 <= i < data.len() as int / channels,
    ensures
        pixel_at(raster_encoding(data, channels, payload), channels, i) == if i < payload.len() {
            pixel_encoding(pixel_at(data, channels, i), payload[i], false)
        } else {
            pixel_encoding(pixel_at(data, channels, i), 0, true)
        },
{
    lemma_pixel_bounds(data.len() as int, channels, i);
    let written = pixel_at(raster_encoding(data, channels, payload), channels, i);
    let expected = if i < payload.len() {
        pixel_encoding(pixel_at(data, channels, i), payload[i], false)
    } else {
        pixel_encoding(pixel_at(data, channels, i), 0, true)
    };
    assert forall|j: int| 0 <= j < channels implies written[j] == expected[j] by {
        lemma_byte_position(i * channels + j, channels, i);
    }
    assert(written =~= expected);
}

/// In a written raster, counting from a pixel inside the payload, exactly
/// the rest of the payload's pixels come before the first end-of-data pixel.
pub proof fn lemma_encoded_payload_pixels(
    data: Seq<u8>,
    channels: int,
    payload: Seq<u8>,
    from: int,
)
    requires
        is_raster(data, channels),
        payload.len() <= data.len() as int / channels,
        0 <= from <= payload.len(),
    ensures
        payload_pixels(raster_encoding(data, channels, payload), channels, from) == payload.len()
            - from,
    decreases payload.len() - from,
{
    if from < data.len() as int / channels {
        lemma_encoded_pixel(data, channels, payload, from);
        lemma_pixel_bounds(data.len() as int, channels, from);
        let pixel = pixel_at(data, channels, from);
        if from < payload.len() {
            lemma_pixel_round_trip(pixel, payload[from]);
            lemma_encoded_payload_pixels(data, channels, payload, from + 1);
        } else {
            lemma_pixel_end_marker(pixel, 0);
        }
    }
}

/// Reading a written raster gives the payload back, for every payload of
/// at most one byte per pixel. The marker is never read as data: reading
/// stops after exactly `payload.len()` pixels, also when a single pixel is
/// left for the marker, or none.
pub proof fn lemma_raster_round_trip(data: Seq<u8>, channels: int, payload: Seq<u8>)
    requires
        is_raster(data, channels),
        payload.len() <= data.len() as int / channels,
    ensures
        payload_pixels(raster_encoding(data, channels, payload), channels, 0) == payload.len(),
        raster_payload(raster_encoding(data, channels, payload), channels) == payload,
{
    let written = raster_encoding(data, channels, payload);
    lemma_encoded_payload_pixels(data, channels, payload, 0);
    assert forall|i: int| 0 <= i < payload.len() implies pixel_byte(
        pixel_at(written, channels, i),
    ) == payload[i] by {
        lemma_encoded_pixel(data, channels, payload, i);
        lemma_pixel_bounds(data.len() as int, channels, i);
        lemma_pixel_round_trip(pixel_at(data, channels, i), payload[i]);
    }
    assert(raster_payload(written, channels) =~= payload);
}

/// Writes `payload` over the raster, one byte per pixel, and the
/// end-of-data marker into every pixel that is left.
pub fn embed_payload(data: &mut Vec<u8>, channels: usize, payload: &[u8])
    requires
        is_raster(old(data)@, channels as int),
        payload@.len() <= old(data)@.len() / (channels as nat),
    ensures
        final(data)@ == raster_encoding(old(data)@, channels as int, payload@),
{
    let ghost orig = data@;
    let ghost goal = raster_encoding(orig, channels as int, payload@);
    let pixels: usize = data.len() / channels;
    let mut i: usize = 0;
    let mut start: usize = 0;
    while i < pixels
        invariant
            3 <= channels <= 4,
            orig.len() % (channels as nat) == 0,
            pixels == orig.len() / (channels as nat),
            payload@.len() <= pixels,
            goal == raster_encoding(orig, channels as int, payload@),
            i <= pixels,
            start == i * channels,
            orig == old(data)@,
            orig.len() <= usize::MAX,
            data@.len() == orig.len(),
            forall|k: int| 0 <= k < start ==> data@[k] == goal[k],
            forall|k: int| start <= k < orig.len() ==> data@[k] == orig[k],
        decreases pixels - i,
    {
        let ghost prev = data@;
        proof {
            lemma_pixel_bounds(orig.len() as int, channels as int, i as int);
            lemma_encoded_pixel(orig, channels as int, payload@, i as int);
            assert(prev.subrange(start as int, start + channels) =~= pixel_at(
                orig,
                channels as int,
                i as int,
            ));
        }
        if i < payload.len() {
            encode_pixel(data, start, channels, payload[i], false);
        } else {
            encode_pixel(data, start, channels, 0, true);
        }
        proof {
            assert forall|k: int| 0 <= k < start + channels implies data@[k] == goal[k] by {
                if k >= start {
                    assert(goal[k] == pixel_at(goal, channels as int, i as int)[k - start]);
                }
            }
        }
        assert(start + channels <= orig.len());
        i += 1;
        start += channels;
    }
    proof {
        lemma_raster_len(orig.len() as int, channels as int);
        assert(start == orig.len());
        assert(data@ =~= goal);
    }
}

/// Reads the payload off the raster and clears the bits that held it,
/// stopping at the first end-of-data pixel.
pub fn extract_payload(data: &mut Vec<u8>, channels: usize) -> (payload: Vec<u8>)
    requires
        is_raster(old(data)@, channels as int),
    ensures
        payload@ == raster_payload(old(data)@, channels as int),
        final(data)@ == raster_after_decoding(old(data)@, channels as int),
{
    let ghost orig = data@;
    let ghost total = payload_pixels(orig, channels as int, 0);
    let ghost goal = raster_after_decoding(orig, channels as int);
    let pixels: usize = data.len() / channels;
    let mut payload: Vec<u8> = Vec::new();
    let mut i: usize = 0;
    let mut start: usize = 0;
    while i < pixels
        invariant
            3 <= channels <= 4,
            orig.len() % (channels as nat) == 0,
            pixels == orig.len() / (channels as nat),
            total == payload_pixels(orig, channels as int, 0),
            goal == raster_after_decoding(orig, channels as int),
            i <= pixels,
            start == i * channels,
            orig == old(data)@,
            orig.len() <= usize::MAX,
            data@.len() == orig.len(),
            payload@.len() == i,
            total == i + payload_pixels(orig, channels as int, i as int),
            forall|j: int| 0 <= j < i ==> payload@[j] == pixel_byte(pixel_at(orig, channels as int, j)),
            forall|k: int| 0 <= k < start ==> data@[k] == goal[k],
            forall|k: int| start <= k < orig.len() ==> data@[k] == orig[k],
        decreases pixels - i,
    {
        let ghost prev = data@;
        let ghost pixel = pixel_at(orig, channels as int, i as int);
        proof {
            lemma_pixel_bounds(orig.len() as int, channels as int, i as int);
            assert(prev.subrange(start as int, start + channels) =~= pixel);
        }
        match decode_pixel(data, start, channels) {
            Some(byte) => {
                payload.push(byte);
                proof {
                    assert forall|k: int| 0 <= k < start + channels implies data@[k] == goal[k] by {
                        if k >= start {
                            lemma_byte_position(k, channels as int, i as int);
                        }
                    }
                }
            },
            None => {
                proof {
                    assert(data@ =~= prev);
                    assert forall|k: int| 0 <= k < orig.len() implies data@[k] == goal[k] by {
                        if k >= start {
                            lemma_whole_pixels_before(k, channels as int, i as int);
                        }
                    }
                    assert(data@ =~= goal);
                    assert(payload@ =~= raster_payload(orig, channels as int));
                }
                return payload;
            },
        }
        assert(start + channels <= orig.len());
        i += 1;
        start += channels;
    }
    proof {
        lemma_raster_len(orig.len() as int, channels as int);
        assert(start == orig.len());
        assert(data@ =~= goal);
        assert(payload@ =~= raster_payload(orig, channels as int));
    }
    payload
}

/// A byte at or past the start of pixel `i` lies in pixel `i` or a later one.
pub proof fn lemma_whole_pixels_before(k: int, channels: int, i: int)
    requires
        3 <= channels <= 4,
        0 <= i,
        i * channels <= k,
    ensures
        k / channels >= i,
{
    if channels == 3 {
        assert(i * 3 <= k);
    } else {
        assert(i * 4 <= k);
    }
}

/// Whether the raster is as encoding leaves one: every pixel before the
/// first end-of-data pixel is a payload pixel, and every pixel from there
/// on is a marker pixel. A raster that is not of this form was not written
/// by `embed_payload`.
pub open spec fn is_encoded_form(data: Seq<u8>, channels: int) -> bool {
    &&& is_raster(data, channels)
    &&& forall|i: int|
        0 <= i < data.len() as int / channels ==> if i < payload_pixels(data, channels, 0) {
            is_payload_pixel(#[trigger] pixel_at(data, channels, i))
        } else {
            is_marker_pixel(pixel_at(data, channels, i))
        }
}

/// No pixel before the first end-of-data pixel is one, and the pixel
/// there, if the raster goes that far, is one.
pub proof fn lemma_payload_pixels_bound(data: Seq<u8>, channels: int, from: int)
    requires
        is_raster(data, channels),
        0 <= from <= data.len() as int / channels,
    ensures
        from + payload_pixels(data, channels, from) <= data.len() as int / channels,
        forall|i: int|
            from <= i < from + payload_pixels(data, channels, from) ==> !is_end_of_data(
                #[trigger] pixel_at(data, channels, i),
            ),
        from + payload_pixels(data, channels, from) < data.len() as int / channels
            ==> is_end_of_data(
            pixel_at(data, channels, from + payload_pixels(data, channels, from)),
        ),
    decreases data.len() as int / channels - from,
{
    if from < data.len() as int / channels && !is_end_of_data(pixel_at(data, channels, from)) {
        lemma_payload_pixels_bound(data, channels, from + 1);
    }
}

/// A written raster is of encoded form.
pub proof fn lemma_encoding_is_encoded_form(data: Seq<u8>, channels: int, payload: Seq<u8>)
    requires
        is_raster(data, channels),
        payload.len() <= data.len() as int / channels,
    ensures
        is_encoded_form(raster_encoding(data, channels, payload), channels),
{
    let written = raster_encoding(data, channels, payload);
    lemma_raster_round_trip(data, channels, payload);
    assert forall|i: int| 0 <= i < written.len() as int / channels implies if i < payload_pixels(
        written,
        channels,
        0,
    ) {
        is_payload_pixel(#[trigger] pixel_at(written, channels, i))
    } else {
        is_marker_pixel(pixel_at(written, channels, i))
    } by {
        lemma_encoded_pixel(data, channels, payload, i);
        lemma_pixel_bounds(data.len() as int, channels, i);
        if i < payload.len() {
            lemma_written_pixel_forms(pixel_at(data, channels, i), payload[i]);
        } else {
            lemma_written_pixel_forms(pixel_at(data, channels, i), 0);
        }
    }
}

/// A raster of encoded form is what writing its own payload over it
/// gives: reading accepts a raster only if encoding changes nothing in it.
pub proof fn lemma_encoded_form_is_fixed_point(data: Seq<u8>, channels: int)
    requires
        is_encoded_form(data, channels),
    ensures
        raster_payload(data, channels).len() <= data.len() as int / channels,
        raster_encoding(data, channels, raster_payload(data, channels)) == data,
{
    let payload = raster_payload(data, channels);
    let written = raster_encoding(data, channels, payload);
    lemma_payload_pixels_bound(data, channels, 0);
    assert forall|k: int| 0 <= k < data.len() implies written[k] == data[k] by {
        let i = k / channels;
        lemma_whole_pixels_within(k, channels, data.len() as int);
        lemma_pixel_bounds(data.len() as int, channels, i);
        let pixel = pixel_at(data, channels, i);
        assert(pixel[k % channels] == data[k]);
        if i < payload.len() {
            assert(is_payload_pixel(pixel));
            lemma_payload_pixel_is_fixed(pixel);
        } else {
            assert(is_marker_pixel(pixel));
            lemma_marker_pixel_is_fixed(pixel);
        }
    }
    assert(written =~= data);
}

/// A raster is not of encoded form if a pixel with the end-of-data marker
/// has other low bits set, or if a pixel behind a pixel with the marker
/// has none.
pub proof fn lemma_not_encoded_form(data: Seq<u8>, channels: int, i: int, j: int)
    requires
        is_raster(data, channels),
        0 <= i <= j < data.len() as int / channels,
        is_end_of_data(pixel_at(data, channels, i)),
        !is_marker_pixel(pixel_at(data, channels, i)) || !is_end_of_data(
            pixel_at(data, channels, j),
        ),
    ensures
        !is_encoded_form(data, channels),
{
    lemma_payload_pixels_bound(data, channels, 0);
    if is_encoded_form(data, channels) {
        let first = payload_pixels(data, channels, 0) as int;
        assert(first <= i) by {
            if i < first {
                assert(!is_end_of_data(pixel_at(data, channels, i)));
            }
        }
        assert(is_marker_pixel(pixel_at(data, channels, i)));
        assert(is_marker_pixel(pixel_at(data, channels, j)));
        lemma_pixel_bounds(data.len() as int, channels, j);
        lemma_marker_pixel_is_fixed(pixel_at(data, channels, j));
    }
}

/// A byte of a raster lies in one of its pixels.
pub proof fn lemma_whole_pixels_within(k: int, channels: int, len: int)
    requires
        3 <= channels <= 4,
        0 <= k < len,
        len % channels == 0,
    ensures
        0 <= k / channels < len / channels,
        0 <= k % channels < channels,
        (k / channels) * channels + k % channels == k,
{
    if channels == 3 {
        assert(k / 3 < len / 3);
    } else {
        assert(k / 4 < len / 4);
    }
}

/// Decides `is_encoded_form`.
pub fn check_encoded_form(data: &[u8], channels: usize) -> (b: bool)
    requires
        is_raster(data@, channels as int),
    ensures
        b == is_encoded_form(data@, channels as int),
{
    let pixels: usize = data.len() / channels;
    let ghost total = payload_pixels(data@, channels as int, 0);
    let mut i: usize = 0;
    let mut start: usize = 0;
    let mut ended: bool = false;
    while i < pixels
        invariant
            3 <= channels <= 4,
            data@.len() % (channels as nat) == 0,
            data@.len() <= usize::MAX,
            pixels == data@.len() / (channels as nat),
            total == payload_pixels(data@, channels as int, 0),
            i <= pixels,
            start == i * channels,
            !ended ==> total == i + payload_pixels(data@, channels as int, i as int),
            ended ==> total < i,
            forall|n: int|
                0 <= n < i ==> if n < total {
                    is_payload_pixel(#[trigger] pixel_at(data@, channels as int, n))
                } else {
                    is_marker_pixel(pixel_at(data@, channels as int, n))
                },
        decreases pixels - i,
    {
        proof {
            lemma_pixel_bounds(data@.len() as int, channels as int, i as int);
        }
        let ghost pixel = pixel_at(data@, channels as int, i as int);
        assert(pixel == data@.subrange(start as int, start + channels));
        if !ended && check_end_of_data(data, start, channels) {
            ended = true;
        }
        let well_formed = if ended {
            check_marker_pixel(data, start, channels)
        } else {
            check_payload_pixel(data, start, channels)
        };
        if !well_formed {
            return false;
        }
        i += 1;
        start += channels;
    }
    true
}

} // verus!
