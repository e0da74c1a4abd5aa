//! How one payload byte is spread over the colour channels of one pixel.
//!
//! A pixel has three or four byte-valued channels. The low three bits of the
//! first three channels hold the eight bits of the payload byte, most
//! significant first; the ninth bit, bit 0 of the third channel, is left
//! clear. Bit 0 of the last channel is the end-of-data marker.

use vstd::prelude::*;

verus! {

/// The three-bit slice of `byte` that the channel at `position` carries:
/// bits 7 to 5, bits 4 to 2, then bits 1 and 0 moved up by one place.
pub open spec fn payload_slice(byte: u8, position: int) -> u8 {
    if position == 0 {
        (byte >> 5) & 0x07
    } else if position == 1 {
        (byte >> 2) & 0x07
    } else if position == 2 {
        (byte & 0x03) << 1
    } else {
        0
    }
}

/// A channel value with its low three bits replaced by the slice of `byte`
/// for `position`, and with bit 0 set where `marker` holds.
pub open spec fn channel_encoding(channel: u8, position: int, byte: u8, marker: bool) -> u8 {
    let written = (channel & 0xF8) | payload_slice(byte, position);
    if marker {
        written | 0x01
    } else {
        written
    }
}

/// A pixel after `byte` has been written into it; with `end_of_data`, bit 0
/// of the last channel is set as well.
pub open spec fn pixel_encoding(pixel: Seq<u8>, byte: u8, end_of_data: bool) -> Seq<u8> {
    Seq::new(
        pixel.len(),
        |j: int| channel_encoding(pixel[j], j, byte, end_of_data && j == pixel.len() - 1),
    )
}

/// Whether the pixel carries the end-of-data marker.
pub open spec fn is_end_of_data(pixel: Seq<u8>) -> bool
    recommends
        pixel.len() >= 1,
{
    pixel[pixel.len() - 1] & 0x01 == 1
}

/// The byte that the low bits of the first three channels spell.
pub open spec fn pixel_byte(pixel: Seq<u8>) -> u8
    recommends
        pixel.len() >= 3,
{
    ((pixel[0] & 0x07) << 5) | ((pixel[1] & 0x07) << 2) | ((pixel[2] & 0x07) >> 1)
}

/// The payload byte held by a pixel, or `None` for an end-of-data pixel.
pub open spec fn pixel_decoding(pixel: Seq<u8>) -> Option<u8>
    recommends
        pixel.len() >= 3,
{
    if is_end_of_data(pixel) {
        None
    } else {
        Some(pixel_byte(pixel))
    }
}

/// A pixel after its payload byte has been read: the three channels that
/// carried data have their low three bits cleared. An end-of-data pixel is
/// left as it is.
pub open spec fn pixel_after_decoding(pixel: Seq<u8>) -> Seq<u8> {
    if is_end_of_data(pixel) {
        pixel
    } else {
        Seq::new(
            pixel.len(),
            |j: int|
                if j < 3 {
                    pixel[j] & 0xF8
                } else {
                    pixel[j]
                },
        )
    }
}

/// `data` with the bytes from `start` on replaced by `piece`.
pub open spec fn splice(data: Seq<u8>, start: int, piece: Seq<u8>) -> Seq<u8>
    recommends
        0 <= start,
        start + piece.len() <= data.len(),
{
    data.subrange(0, start) + piece + data.subrange(start + piece.len(), data.len() as int)
}

/// The three slices of a byte, read back from the low bits of three
/// channels, put the byte together again; and the third channel, like a
/// fourth one that holds no slice, is left with bit 0 clear.
pub proof fn lemma_slices_rejoin(c0: u8, c1: u8, c2: u8, c3: u8, byte: u8)
    by (bit_vector)
    ensures
        (((((c0 & 0xF8) | ((byte >> 5) & 0x07)) & 0x07) << 5) | ((((c1 & 0xF8) | ((byte >> 2)
            & 0x07)) & 0x07) << 2) | ((((c2 & 0xF8) | ((byte & 0x03) << 1)) & 0x07) >> 1)) == byte,
        ((c2 & 0xF8) | ((byte & 0x03) << 1)) & 0x01 == 0,
        ((c3 & 0xF8) | 0) & 0x01 == 0,
{
}

/// Setting bit 0 makes a channel read as the end-of-data marker.
pub proof fn lemma_marker_reads_back(channel: u8)
    by (bit_vector)
    ensures
        (channel | 0x01) & 0x01 == 1,
{
}

/// Writing keeps the upper five bits of a channel, for any slice of three
/// bits and with or without the marker.
pub proof fn lemma_high_bits_kept(channel: u8, slice: u8)
    by (bit_vector)
    requires
        slice < 8,
    ensures
        ((channel & 0xF8) | slice) & 0xF8 == channel & 0xF8,
        (((channel & 0xF8) | slice) | 0x01) & 0xF8 == channel & 0xF8,
{
}

/// Every slice is a value of three bits.
pub proof fn lemma_slice_is_three_bits(byte: u8)
    by (bit_vector)
    ensures
        (byte >> 5) & 0x07 < 8,
        (byte >> 2) & 0x07 < 8,
        (byte & 0x03) << 1 < 8,
{
}

/// A pixel that was written with a payload byte reads back as that byte.
pub proof fn lemma_pixel_round_trip(pixel: Seq<u8>, byte: u8)
    requires
        3 <= pixel.len() <= 4,
    ensures
        pixel_decoding(pixel_encoding(pixel, byte, false)) == Some(byte),
{
    lemma_slices_rejoin(pixel[0], pixel[1], pixel[2], pixel[pixel.len() - 1], byte);
}

/// A pixel that was written as end of data reads back as no byte at all,
/// whatever byte was written along with the marker.
pub proof fn lemma_pixel_end_marker(pixel: Seq<u8>, byte: u8)
    requires
        3 <= pixel.len() <= 4,
    ensures
        pixel_decoding(pixel_encoding(pixel, byte, true)) is None,
{
    let last = pixel.len() - 1;
    lemma_marker_reads_back((pixel[last] & 0xF8) | payload_slice(byte, last));
}

/// Writing a pixel keeps the upper five bits of every channel.
pub proof fn lemma_pixel_keeps_high_bits(pixel: Seq<u8>, byte: u8, end_of_data: bool, j: int)
    requires
        3 <= pixel.len() <= 4,
        0 <= j < pixel.len(),
    ensures
        pixel_encoding(pixel, byte, end_of_data)[j] & 0xF8 == pixel[j] & 0xF8,
{
    lemma_slice_is_three_bits(byte);
    lemma_high_bits_kept(pixel[j], payload_slice(byte, j));
}

/// Writes `payload_byte` into the pixel that starts at `start`, and the
/// end-of-data marker with it if `end_of_data` holds.
pub fn encode_pixel(
    data: &mut Vec<u8>,
    start: usize,
    channels: usize,
    payload_byte: u8,
    end_of_data: bool,
)
    requires
        3 <= channels <= 4,
        start + channels <= old(data)@.len(),
    ensures
        final(data)@ == splice(
            old(data)@,
            start as int,
            pixel_encoding(
                old(data)@.subrange(start as int, start + channels),
                payload_byte,
                end_of_data,
            ),
        ),
{
    let ghost before = data@;
    let ghost pixel = before.subrange(start as int, start + channels);
    assert(data@.len() == data.len());
    let last: usize = start + channels - 1;
    data[start] = (data[start] & 0xF8) | ((payload_byte >> 5) & 0x07);
    data[start + 1] = (data[start + 1] & 0xF8) | ((payload_byte >> 2) & 0x07);
    data[start + 2] = (data[start + 2] & 0xF8) | ((payload_byte & 0x03) << 1);
    if channels == 4 {
        let cleared: u8 = data[start + 3] & 0xF8;
        assert(cleared == cleared | 0) by (bit_vector);
        data[start + 3] = cleared;
    }
    if end_of_data {
        data[last] = data[last] | 0x01;
    }
    assert(data@ =~= splice(before, start as int, pixel_encoding(pixel, payload_byte, end_of_data)));
}

/// Reads the payload byte of the pixel that starts at `start` and clears the
/// bits that held it. Returns `None`, and changes nothing, if the pixel
/// carries the end-of-data marker.
pub fn decode_pixel(data: &mut Vec<u8>, start: usize, channels: usize) -> (byte: Option<u8>)
    requires
        3 <= channels <= 4,
        start + channels <= old(data)@.len(),
    ensures
        byte == pixel_decoding(old(data)@.subrange(start as int, start + channels)),
        final(data)@ == splice(
            old(data)@,
            start as int,
            pixel_after_decoding(old(data)@.subrange(start as int, start + channels)),
        ),
{
    let ghost before = data@;
    let ghost pixel = before.subrange(start as int, start + channels);
    assert(data@.len() == data.len());
    if data[start + channels - 1] & 0x01 == 1 {
        assert(data@ =~= splice(before, start as int, pixel_after_decoding(pixel)));
        return None;
    }
    let c0: u8 = data[start];
    let c1: u8 = data[start + 1];
    let c2: u8 = data[start + 2];
    let byte: u8 = ((c0 & 0x07) << 5) | ((c1 & 0x07) << 2) | ((c2 & 0x07) >> 1);
    data[start] = c0 & 0xF8;
    data[start + 1] = c1 & 0xF8;
    data[start + 2] = c2 & 0xF8;
    assert(data@ =~= splice(before, start as int, pixel_after_decoding(pixel)));
    Some(byte)
}

/// Whether a pixel is as encoding leaves a pixel that carries a payload
/// byte: the ninth bit, bit 0 of the third channel, is clear, and a fourth
/// channel has its low three bits clear. Such a pixel is no end-of-data
/// pixel.
pub open spec fn is_payload_pixel(pixel: Seq<u8>) -> bool
    recommends
        3 <= pixel.len() <= 4,
{
    &&& pixel[2] & 0x01 == 0
    &&& pixel.len() == 4 ==> pixel[3] & 0x07 == 0
}

/// Whether a pixel is as encoding leaves a pixel past the payload: the low
/// three bits of the last channel hold the marker alone, and those of the
/// other channels are clear.
pub open spec fn is_marker_pixel(pixel: Seq<u8>) -> bool
    recommends
        3 <= pixel.len() <= 4,
{
    &&& pixel[0] & 0x07 == 0
    &&& pixel[1] & 0x07 == 0
    &&& if pixel.len() == 4 {
        pixel[2] & 0x07 == 0 && pixel[3] & 0x07 == 1
    } else {
        pixel[2] & 0x07 == 1
    }
}

/// What writing leaves in the low bits of a channel that holds no slice,
/// and of the third channel.
pub proof fn lemma_written_low_bits(channel: u8, byte: u8)
    by (bit_vector)
    ensures
        ((channel & 0xF8) | 0) & 0x07 == 0,
        (((channel & 0xF8) | 0) | 0x01) & 0x07 == 1,
        ((channel & 0xF8) | ((byte & 0x03) << 1)) & 0x01 == 0,
        ((channel & 0xF8) | ((0u8 >> 5) & 0x07)) & 0x07 == 0,
        ((channel & 0xF8) | ((0u8 >> 2) & 0x07)) & 0x07 == 0,
        ((channel & 0xF8) | ((0u8 & 0x03) << 1)) & 0x07 == 0,
        (((channel & 0xF8) | ((0u8 & 0x03) << 1)) | 0x01) & 0x07 == 1,
{
}

/// A pixel written with a payload byte is a payload pixel, and a pixel
/// written as end of data with a zero byte is a marker pixel.
pub proof fn lemma_written_pixel_forms(pixel: Seq<u8>, byte: u8)
    requires
        3 <= pixel.len() <= 4,
    ensures
        is_payload_pixel(pixel_encoding(pixel, byte, false)),
        is_marker_pixel(pixel_encoding(pixel, 0, true)),
{
    lemma_written_low_bits(pixel[0], byte);
    lemma_written_low_bits(pixel[1], byte);
    lemma_written_low_bits(pixel[2], byte);
    lemma_written_low_bits(pixel[pixel.len() - 1], byte);
}

/// The low bits of a channel decide whether it has the marker.
pub proof fn lemma_low_bits_and_marker(channel: u8)
    by (bit_vector)
    ensures
        channel & 0x07 == 0 ==> channel & 0x01 == 0,
        channel & 0x07 == 1 ==> channel & 0x01 == 1,
        channel & 0x07 == 0 ==> (channel & 0xF8) | 0 == channel,
        channel & 0x07 == 1 ==> ((channel & 0xF8) | 0) | 0x01 == channel,
        channel & 0x07 == 0 ==> (channel & 0xF8) | ((0u8 >> 5) & 0x07) == channel,
        channel & 0x07 == 0 ==> (channel & 0xF8) | ((0u8 >> 2) & 0x07) == channel,
        channel & 0x07 == 0 ==> (channel & 0xF8) | ((0u8 & 0x03) << 1) == channel,
        channel & 0x07 == 1 ==> ((channel & 0xF8) | ((0u8 & 0x03) << 1)) | 0x01 == channel,
{
}

/// Writing the byte that three channels spell back into them changes
/// nothing, if the ninth bit is clear.
pub proof fn lemma_own_byte(c0: u8, c1: u8, c2: u8)
    by (bit_vector)
    requires
        c2 & 0x01 == 0,
    ensures
        ({
            let byte = ((c0 & 0x07) << 5) | ((c1 & 0x07) << 2) | ((c2 & 0x07) >> 1);
            &&& (c0 & 0xF8) | ((byte >> 5) & 0x07) == c0
            &&& (c1 & 0xF8) | ((byte >> 2) & 0x07) == c1
            &&& (c2 & 0xF8) | ((byte & 0x03) << 1) == c2
        }),
{
}

/// A payload pixel is no end-of-data pixel, and writing its own byte into
/// it changes nothing.
pub proof fn lemma_payload_pixel_is_fixed(pixel: Seq<u8>)
    requires
        3 <= pixel.len() <= 4,
        is_payload_pixel(pixel),
    ensures
        !is_end_of_data(pixel),
        pixel_encoding(pixel, pixel_byte(pixel), false) == pixel,
{
    lemma_low_bits_and_marker(pixel[pixel.len() - 1]);
    lemma_own_byte(pixel[0], pixel[1], pixel[2]);
    assert(pixel_encoding(pixel, pixel_byte(pixel), false) =~= pixel);
}

/// A marker pixel is an end-of-data pixel, and writing the marker into it
/// changes nothing.
pub proof fn lemma_marker_pixel_is_fixed(pixel: Seq<u8>)
    requires
        3 <= pixel.len() <= 4,
        is_marker_pixel(pixel),
    ensures
        is_end_of_data(pixel),
        pixel_encoding(pixel, 0, true) == pixel,
{
    lemma_low_bits_and_marker(pixel[0]);
    lemma_low_bits_and_marker(pixel[1]);
    lemma_low_bits_and_marker(pixel[2]);
    lemma_low_bits_and_marker(pixel[pixel.len() - 1]);
    assert(pixel_encoding(pixel, 0, true) =~= pixel);
}

/// Decides `is_payload_pixel` for the pixel that starts at `start`.
pub fn check_payload_pixel(data: &[u8], start: usize, channels: usize) -> (b: bool)
    requires
        3 <= channels <= 4,
        start + channels <= data@.len(),
    ensures
        b == is_payload_pixel(data@.subrange(start as int, start + channels)),
{
    assert(data@.len() == data.len());
    let ghost pixel = data@.subrange(start as int, start + channels);
    assert(pixel[2] == data@[start + 2]);
    if data[start + 2] & 0x01 != 0 {
        return false;
    }
    if channels == 4 {
        assert(pixel[3] == data@[start + 3]);
        data[start + 3] & 0x07 == 0
    } else {
        true
    }
}

/// Decides `is_marker_pixel` for the pixel that starts at `start`.
pub fn check_marker_pixel(data: &[u8], start: usize, channels: usize) -> (b: bool)
    requires
        3 <= channels <= 4,
        start + channels <= data@.len(),
    ensures
        b == is_marker_pixel(data@.subrange(start as int, start + channels)),
{
    assert(data@.len() == data.len());
    let ghost pixel = data@.subrange(start as int, start + channels);
    assert(pixel[0] == data@[start as int] && pixel[1] == data@[start + 1] && pixel[2] == data@[start
        + 2]);
    if data[start] & 0x07 != 0 || data[start + 1] & 0x07 != 0 {
        return false;
    }
    if channels == 4 {
        assert(pixel[3] == data@[start + 3]);
        data[start + 2] & 0x07 == 0 && data[start + 3] & 0x07 == 1
    } else {
        data[start + 2] & 0x07 == 1
    }
}

/// Whether the pixel that starts at `start` carries the end-of-data marker.
pub fn check_end_of_data(data: &[u8], start: usize, channels: usize) -> (b: bool)
    requires
        3 <= channels <= 4,
        start + channels <= data@.len(),
    ensures
        b == is_end_of_data(data@.subrange(start as int, start + channels)),
{
    assert(data@.len() == data.len());
    let ghost pixel = data@.subrange(start as int, start + channels);
    assert(pixel[channels - 1] == data@[start + channels - 1]);
    data[start + channels - 1] & 0x01 == 1
}

} // verus!
