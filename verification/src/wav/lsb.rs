//! Payload carried in the low bits of the samples of a WAV file.
//!
//! The samples are held as their little-endian bytes. Integer samples are
//! read through the reader and turned into bytes; floating-point samples
//! are never held as numbers, so their bytes are taken from the file as
//! they stand, at the place where the reader stopped. Either way the
//! writer gets the samples back as integers: for a floating-point sample,
//! the integer whose bits are those of the sample.

use vstd::prelude::*;
use crate::codec::{Codec, CodecError, ErrorKind};
use crate::framing::{le_value, u64_from_le};
use crate::wav::samples::{decode, encode, framed, has_capacity, is_width, lemma_sample_bounds,
    lemma_sample_position, lemma_samples_round_trip, sample_count, samples_decoding,
    samples_encoding};

verus! {

/// Whether samples are stored as floating-point or as integer values.
#[derive(Clone, Copy, Debug, PartialEq, Eq, Structural)]
pub enum SampleFormat {
    /// IEEE floating point.
    Float,
    /// Signed integers.
    Int,
}

/// What the header of a WAV file says of its audio data.
#[derive(Clone, Copy, Debug, PartialEq, Eq, Structural)]
pub struct WavLayout {
    /// The number of channels.
    pub channels: u16,
    /// The number of samples per second.
    pub sample_rate: u32,
    /// The number of bits per sample.
    pub bits_per_sample: u16,
    /// Whether the samples are floating-point or integer values.
    pub sample_format: SampleFormat,
    /// The number of samples, over all channels.
    pub sample_count: u32,
    /// The offset of the first sample in the file.
    pub data_start: u64,
}

impl WavLayout {
    /// The number of bytes per sample, for the four kinds of sample that
    /// can carry payload: integers of 8, 16 and 32 bits, and floating-point
    /// values of 32 bits.
    pub open spec fn sample_width_spec(self) -> Option<int> {
        match self.sample_format {
            SampleFormat::Float => if self.bits_per_sample == 32 {
                Some(4)
            } else {
                None
            },
            SampleFormat::Int => if self.bits_per_sample == 8 {
                Some(1)
            } else if self.bits_per_sample == 16 {
                Some(2)
            } else if self.bits_per_sample == 32 {
                Some(4)
            } else {
                None
            },
        }
    }

    /// The number of bytes per sample, if samples of this kind can carry
    /// payload.
    pub fn sample_width(&self) -> (width: Option<usize>)
        ensures
            match width {
                Some(w) => self.sample_width_spec() == Some(w as int) && is_width(w as int),
                None => self.sample_width_spec() is None,
            },
    {
        match self.sample_format {
            SampleFormat::Float => if self.bits_per_sample == 32 {
                Some(4)
            } else {
                None
            },
            SampleFormat::Int => if self.bits_per_sample == 8 {
                Some(1)
            } else if self.bits_per_sample == 16 {
                Some(2)
            } else if self.bits_per_sample == 32 {
                Some(4)
            } else {
                None
            },
        }
    }

    /// The number of bytes that the writer counts in front of the samples:
    /// more for the extended header that it writes for more than two
    /// channels or more than 16 bits.
    pub open spec fn header_size(self) -> int {
        if self.channels > 2 || self.bits_per_sample > 16 {
            60
        } else {
            36
        }
    }

    /// Whether a file of this layout can be written: the writer divides by
    /// the sample rate and by the number of channels, and states the byte
    /// rate and the size of the file in 32 bits.
    pub open spec fn writable_spec(self, width: int) -> bool {
        &&& self.sample_rate > 0
        &&& self.channels > 0
        &&& self.sample_rate * width * self.channels <= u32::MAX
        &&& self.sample_count * width + self.header_size() <= u32::MAX
    }

    /// Decides `writable_spec`.
    pub fn writable(&self, width: usize) -> (b: bool)
        requires
            is_width(width as int),
        ensures
            b == self.writable_spec(width as int),
    {
        let header: u64 = if self.channels > 2 || self.bits_per_sample > 16 {
            60
        } else {
            36
        };
        let per_frame: u64 = bytes_of_samples(self.channels as u32, width);
        assert(self.sample_rate * width * self.channels == self.sample_rate * (self.channels
            * width)) by (nonlinear_arith);
        assert(self.sample_rate as u64 * per_frame <= 0xFFFF_FFFF * 0x4_0000) by (nonlinear_arith)
            requires
                self.sample_rate <= 0xFFFF_FFFF,
                per_frame <= 0x4_0000,
        ;
        self.sample_rate > 0 && self.channels > 0 && self.sample_rate as u64 * per_frame
            <= u32::MAX as u64 && bytes_of_samples(self.sample_count, width) + header
            <= u32::MAX as u64
    }
}

/// The number of bytes that `count` samples take.
pub fn bytes_of_samples(count: u32, width: usize) -> (total: u64)
    requires
        is_width(width as int),
    ensures
        total == count * width,
{
    if width == 1 {
        count as u64
    } else if width == 2 {
        count as u64 * 2
    } else {
        count as u64 * 4
    }
}

/// Whether the file holds, where the layout says, as many bytes of sample
/// data as the layout calls for, behind a chunk header that states just
/// that many.
pub open spec fn data_region_ok(carrier: Seq<u8>, layout: WavLayout, width: int) -> bool {
    &&& 4 <= layout.data_start
    &&& layout.data_start + layout.sample_count * width <= carrier.len()
    &&& le_value(carrier.subrange(layout.data_start - 4, layout.data_start as int))
        == layout.sample_count * width
}

/// The little-endian bytes of the samples of a file.
pub open spec fn sample_data(carrier: Seq<u8>, layout: WavLayout, width: int) -> Seq<u8> {
    carrier.subrange(layout.data_start as int, layout.data_start + layout.sample_count * width)
}

/// The value of a sample, given its little-endian bytes: a two's-complement
/// integer of 16 or 32 bits, which for a floating-point sample is its bit
/// pattern; a sample of 8 bits is stored with 128 added.
pub open spec fn sample_value(bytes: Seq<u8>, width: int) -> int {
    if width == 1 {
        bytes[0] - 128
    } else if width == 2 {
        let v = bytes[0] + 256 * bytes[1];
        if v >= 0x8000 {
            v - 0x1_0000
        } else {
            v
        }
    } else {
        let v = bytes[0] + 256 * bytes[1] + 0x1_0000 * bytes[2] + 0x100_0000 * bytes[3];
        if v >= 0x8000_0000 {
            v - 0x1_0000_0000
        } else {
            v
        }
    }
}

/// The values of all samples.
pub open spec fn sample_values(data: Seq<u8>, width: int) -> Seq<i32> {
    Seq::new(
        sample_count(data, width) as nat,
        |k: int| sample_value(data.subrange(k * width, k * width + width), width) as i32,
    )
}

/// Computes the values of all samples.
pub fn to_sample_values(data: &[u8], width: usize) -> (values: Vec<i32>)
    requires
        is_width(width as int),
    ensures
        values@ == sample_values(data@, width as int),
{
    let len: usize = data.len();
    let count: usize = len / width;
    let mut values: Vec<i32> = Vec::new();
    let mut k: usize = 0;
    while k < count
        invariant
            k <= count,
            is_width(width as int),
            len == data@.len(),
            count == sample_count(data@, width as int),
            values@.len() == k,
            forall|i: int|
                0 <= i < k ==> values@[i] == sample_value(
                    data@.subrange(i * (width as int), i * (width as int) + (width as int)),
                    width as int,
                ) as i32,
        decreases count - k,
    {
        proof {
            lemma_sample_bounds(len as int, width as int, k as int);
        }
        let at: usize = k * width;
        let ghost bytes = data@.subrange(at as int, at + width);
        let value: i32 = if width == 1 {
            assert(bytes[0] == data@[at as int]);
            data[at] as i32 - 128
        } else if width == 2 {
            assert(bytes[0] == data@[at as int] && bytes[1] == data@[at + 1]);
            let v: i32 = data[at] as i32 + 256 * data[at + 1] as i32;
            if v >= 0x8000 {
                v - 0x1_0000
            } else {
                v
            }
        } else {
            assert(bytes[0] == data@[at as int] && bytes[1] == data@[at + 1] && bytes[2] == data@[at
                + 2] && bytes[3] == data@[at + 3]);
            let v: i64 = data[at] as i64 + 256 * data[at + 1] as i64 + 0x1_0000 * data[at
                + 2] as i64 + 0x100_0000 * data[at + 3] as i64;
            if v >= 0x8000_0000 {
                (v - 0x1_0000_0000) as i32
            } else {
                v as i32
            }
        };
        values.push(value);
        k += 1;
    }
    assert(values@ =~= sample_values(data@, width as int));
    values
}

/// Whether a sample value can be stored in `width` bytes.
pub open spec fn fits_width(value: i32, width: int) -> bool {
    if width == 1 {
        -128 <= value <= 127
    } else if width == 2 {
        -0x8000 <= value <= 0x7FFF
    } else {
        true
    }
}

/// Whether every sample value can be stored in `width` bytes.
pub open spec fn all_fit(values: Seq<i32>, width: int) -> bool {
    forall|i: int| 0 <= i < values.len() ==> fits_width(#[trigger] values[i], width)
}

/// Byte `j` of the little-endian bytes that store a sample value: of its
/// two's complement in 16 or 32 bits, or, for a single byte, of the value
/// with 128 added.
pub open spec fn value_byte(value: i32, width: int, j: int) -> u8 {
    if width == 1 {
        (value + 128) as u8
    } else {
        let unsigned: int = if value >= 0 {
            value as int
        } else if width == 2 {
            value + 0x1_0000
        } else {
            value + 0x1_0000_0000
        };
        if j == 0 {
            (unsigned % 256) as u8
        } else if j == 1 {
            (unsigned / 256 % 256) as u8
        } else if j == 2 {
            (unsigned / 0x1_0000 % 256) as u8
        } else {
            (unsigned / 0x100_0000 % 256) as u8
        }
    }
}

/// The little-endian bytes that store the sample values, one sample after
/// the other.
pub open spec fn samples_bytes(values: Seq<i32>, width: int) -> Seq<u8> {
    Seq::new(
        (values.len() * width) as nat,
        |p: int| value_byte(values[p / width], width, p % width),
    )
}

/// The bytes of `n` samples are `n` samples.
pub proof fn lemma_count_of_bytes(n: int, width: int)
    requires
        is_width(width),
        0 <= n,
    ensures
        (n * width) / width == n,
        (n * width) % width == 0,
{
    if width == 1 {
        assert(n * 1 == n);
    } else if width == 2 {
        assert((n * 2) / 2 == n);
    } else {
        assert((n * 4) / 4 == n);
    }
}

/// The four base-256 digits of a number below `2^32` put it together
/// again, and so do the two digits of a number below `2^16`.
pub proof fn lemma_digits_rejoin(unsigned: u64)
    by (bit_vector)
    requires
        unsigned < 0x1_0000_0000,
    ensures
        unsigned % 256 + 256 * (unsigned / 256 % 256) + 0x1_0000 * (unsigned / 0x1_0000 % 256)
            + 0x100_0000 * (unsigned / 0x100_0000 % 256) == unsigned,
        unsigned < 0x1_0000 ==> unsigned % 256 + 256 * (unsigned / 256 % 256) == unsigned,
{
}

/// The bytes that store one sample value give the value back.
pub proof fn lemma_value_of_bytes(value: i32, width: int, bytes: Seq<u8>)
    requires
        is_width(width),
        fits_width(value, width),
        bytes.len() == width,
        forall|j: int| 0 <= j < width ==> bytes[j] == value_byte(value, width, j),
    ensures
        sample_value(bytes, width) == value,
{
    assert(bytes[0] == value_byte(value, width, 0));
    if width == 2 {
        assert(bytes[1] == value_byte(value, width, 1));
        let unsigned: int = if value >= 0 {
            value as int
        } else {
            value + 0x1_0000
        };
        lemma_digits_rejoin(unsigned as u64);
    } else if width == 4 {
        assert(bytes[1] == value_byte(value, width, 1));
        assert(bytes[2] == value_byte(value, width, 2));
        assert(bytes[3] == value_byte(value, width, 3));
        let unsigned: int = if value >= 0 {
            value as int
        } else {
            value + 0x1_0000_0000
        };
        lemma_digits_rejoin(unsigned as u64);
    }
}

/// The bytes that store sample values give the values back.
pub proof fn lemma_values_of_bytes(values: Seq<i32>, width: int)
    requires
        is_width(width),
        all_fit(values, width),
    ensures
        sample_count(samples_bytes(values, width), width) == values.len(),
        sample_values(samples_bytes(values, width), width) == values,
{
    let data = samples_bytes(values, width);
    lemma_count_of_bytes(values.len() as int, width);
    assert forall|k: int| 0 <= k < values.len() implies sample_value(
        data.subrange(k * width, k * width + width),
        width,
    ) as i32 == values[k] by {
        lemma_sample_bounds(data.len() as int, width, k);
        let bytes = data.subrange(k * width, k * width + width);
        assert forall|j: int| 0 <= j < width implies bytes[j] == value_byte(
            values[k],
            width,
            j,
        ) by {
            lemma_sample_position(k * width + j, width, k);
        }
        lemma_value_of_bytes(values[k], width, bytes);
    }
    assert(sample_values(data, width) =~= values);
}

/// Computes the little-endian bytes that store the sample values; `None`
/// where a value cannot be stored in `width` bytes.
pub fn to_sample_bytes(values: &Vec<i32>, width: usize) -> (r: Option<Vec<u8>>)
    requires
        is_width(width as int),
    ensures
        match r {
            Some(data) => all_fit(values@, width as int) && data@ == samples_bytes(
                values@,
                width as int,
            ) && sample_count(data@, width as int) == values@.len(),
            None => !all_fit(values@, width as int),
        },
{
    let mut data: Vec<u8> = Vec::new();
    let mut k: usize = 0;
    while k < values.len()
        invariant
            k <= values@.len(),
            is_width(width as int),
            data@.len() == k * width,
            forall|i: int| 0 <= i < k ==> fits_width(#[trigger] values@[i], width as int),
            forall|p: int|
                0 <= p < data@.len() ==> data@[p] == value_byte(
                    values@[p / (width as int)],
                    width as int,
                    p % (width as int),
                ),
        decreases values@.len() - k,
    {
        let value: i32 = values[k];
        let ghost before = data@;
        if width == 1 {
            if value < -128 || value > 127 {
                assert(!fits_width(values@[k as int], width as int));
                return None;
            }
            data.push((value + 128) as u8);
        } else if width == 2 {
            if value < -0x8000 || value > 0x7FFF {
                assert(!fits_width(values@[k as int], width as int));
                return None;
            }
            let unsigned: i32 = if value >= 0 {
                value
            } else {
                value + 0x1_0000
            };
            data.push((unsigned % 256) as u8);
            data.push((unsigned / 256 % 256) as u8);
        } else {
            let unsigned: i64 = if value >= 0 {
                value as i64
            } else {
                value as i64 + 0x1_0000_0000
            };
            data.push((unsigned % 256) as u8);
            data.push((unsigned / 256 % 256) as u8);
            data.push((unsigned / 0x1_0000 % 256) as u8);
            data.push((unsigned / 0x100_0000 % 256) as u8);
        }
        proof {
            assert(data@.len() == (k + 1) * width) by {
                lemma_next_sample(k as int, width as int);
            }
            assert forall|p: int| 0 <= p < data@.len() implies data@[p] == value_byte(
                values@[p / (width as int)],
                width as int,
                p % (width as int),
            ) by {
                if p >= before.len() {
                    lemma_sample_position(p, width as int, k as int);
                } else {
                    assert(data@[p] == before[p]);
                }
            }
        }
        k += 1;
    }
    proof {
        lemma_count_of_bytes(values@.len() as int, width as int);
        assert(data@ =~= samples_bytes(values@, width as int));
    }
    Some(data)
}

/// The sample behind sample `k` starts `width` bytes further on.
pub proof fn lemma_next_sample(k: int, width: int)
    requires
        is_width(width),
    ensures
        (k + 1) * width == k * width + width,
{
    if width == 1 {
    } else if width == 2 {
    } else {
    }
}

/// What `WavReader::new` reads from the header of a file, and where it
/// stops reading; `None` where it fails.
pub uninterp spec fn wav_layout(carrier: Seq<u8>) -> Option<WavLayout>;

/// The values of the samples that `WavReader::samples` reads from a file
/// as integers, in order; `None` where the header or a sample cannot be
/// read, as with samples that are no integers.
pub uninterp spec fn wav_int_samples(carrier: Seq<u8>) -> Option<Seq<i32>>;

/// The file that `WavWriter` writes for a layout and the values of the
/// samples; `None` where it fails.
pub uninterp spec fn written_wav(layout: WavLayout, samples: Seq<i32>) -> Option<Seq<u8>>;

/// Calls `WavReader::new` on the buffer, then `spec`, `len` and
/// `into_inner`: the layout holds what the header says, the number of
/// samples, and the position at which the reader stopped, which is the
/// first byte behind the header of the data chunk. The layout depends on
/// the buffer alone.
#[verifier::external_body]
fn read_wav_layout(carrier: &[u8]) -> (r: Result<WavLayout, String>)
    ensures
        r.ok() == wav_layout(carrier@),
{
    let reader = hound::WavReader::new(std::io::Cursor::new(carrier)).map_err(|e| e.to_string())?;
    let (spec, sample_count) = (reader.spec(), reader.len());
    let sample_format = match spec.sample_format {
        hound::SampleFormat::Float => SampleFormat::Float,
        hound::SampleFormat::Int => SampleFormat::Int,
    };
    let (channels, sample_rate) = (spec.channels, spec.sample_rate);
    let bits_per_sample = spec.bits_per_sample;
    let data_start = reader.into_inner().position();
    Ok(WavLayout { channels, sample_rate, bits_per_sample, sample_format, sample_count, data_start })
}

/// Calls `WavReader::new` on the buffer and collects what `samples` reads
/// as integers of 32 bits, which hold samples of every integer width. The
/// values depend on the buffer alone.
#[verifier::external_body]
fn read_int_samples(carrier: &[u8]) -> (r: Result<Vec<i32>, String>)
    ensures
        r is Ok <==> wav_int_samples(carrier@) is Some,
        r is Ok ==> r->Ok_0@ == wav_int_samples(carrier@)->Some_0,
{
    let cursor = std::io::Cursor::new(carrier);
    let mut reader = hound::WavReader::new(cursor).map_err(|e| e.to_string())?;
    reader.samples::<i32>().collect::<Result<Vec<i32>, _>>().map_err(|e| e.to_string())
}

/// Calls `WavWriter::new` with the layout, `write_sample` with each value
/// and `finalize`. The file written depends on the arguments alone.
#[verifier::external_body]
fn write_wav(layout: &WavLayout, samples: &Vec<i32>) -> (r: Result<Vec<u8>, String>)
    requires
        layout.sample_width_spec() is Some,
        layout.writable_spec(layout.sample_width_spec()->Some_0),
        samples@.len() == layout.sample_count,
    ensures
        r is Ok <==> written_wav(*layout, samples@) is Some,
        r is Ok ==> r->Ok_0@ == written_wav(*layout, samples@)->Some_0,
{
    let sample_format = match layout.sample_format {
        SampleFormat::Float => hound::SampleFormat::Float,
        SampleFormat::Int => hound::SampleFormat::Int,
    };
    let (channels, sample_rate) = (layout.channels, layout.sample_rate);
    let bits_per_sample = layout.bits_per_sample;
    let spec = hound::WavSpec { channels, sample_rate, bits_per_sample, sample_format };
    let mut out = Vec::new();
    let cursor = std::io::Cursor::new(&mut out);
    let mut writer = hound::WavWriter::new(cursor, spec).map_err(|e| e.to_string())?;
    for sample in samples {
        writer.write_sample(*sample).map_err(|e| e.to_string())?;
    }
    writer.finalize().map(|_| out).map_err(|e| e.to_string())
}

/// The little-endian bytes of the samples of a file whose header has been
/// read, or `None` where they cannot be had. Integer samples are what the
/// reader reads, as many as the header says and each of the width that it
/// says. Floating-point samples are taken as they stand in the file, which
/// must hold where the reader stopped as many bytes of sample data as the
/// header calls for.
pub open spec fn carrier_samples(carrier: Seq<u8>, layout: WavLayout, width: int) -> Option<
    Seq<u8>,
> {
    match layout.sample_format {
        SampleFormat::Float => if data_region_ok(carrier, layout, width) {
            Some(sample_data(carrier, layout, width))
        } else {
            None
        },
        SampleFormat::Int => match wav_int_samples(carrier) {
            None => None,
            Some(values) => if values.len() == layout.sample_count && all_fit(values, width) {
                Some(samples_bytes(values, width))
            } else {
                None
            },
        },
    }
}

/// The encoded file for a carrier whose header has been read. `Invalid`
/// where the samples are of a kind that cannot carry payload, where the
/// layout cannot be written, or where the samples have no room for the
/// payload and its header; `Dependency` where the samples cannot be had,
/// or the writer fails; else the file written for the samples with the
/// payload laid over them.
pub open spec fn wav_encoding_of(carrier: Seq<u8>, layout: WavLayout, payload: Seq<u8>) -> Result<
    Seq<u8>,
    ErrorKind,
> {
    match layout.sample_width_spec() {
        None => Err(ErrorKind::Invalid),
        Some(width) => match carrier_samples(carrier, layout, width) {
            None => Err(ErrorKind::Dependency),
            Some(data) => if !layout.writable_spec(width) {
                Err(ErrorKind::Invalid)
            } else if !has_capacity(data, width, payload.len()) {
                Err(ErrorKind::Invalid)
            } else {
                match written_wav(
                    layout,
                    sample_values(samples_encoding(data, width, framed(payload)), width),
                ) {
                    None => Err(ErrorKind::Dependency),
                    Some(bytes) => Ok(bytes),
                }
            },
        },
    }
}

/// The encoded file: `Dependency` where the header of the carrier cannot
/// be read, else as `wav_encoding_of` says.
pub open spec fn wav_encoding(carrier: Seq<u8>, payload: Seq<u8>) -> Result<Seq<u8>, ErrorKind> {
    match wav_layout(carrier) {
        None => Err(ErrorKind::Dependency),
        Some(layout) => wav_encoding_of(carrier, layout, payload),
    }
}

/// The payload of a file whose header has been read. `NotEncoded` where
/// the samples are of a kind that cannot carry payload, or are not framed
/// as payload; `Dependency` where the samples cannot be had.
pub open spec fn wav_payload_of(encoded: Seq<u8>, layout: WavLayout) -> Result<Seq<u8>, ErrorKind> {
    match layout.sample_width_spec() {
        None => Err(ErrorKind::NotEncoded),
        Some(width) => match carrier_samples(encoded, layout, width) {
            None => Err(ErrorKind::Dependency),
            Some(data) => match samples_decoding(data, width) {
                None => Err(ErrorKind::NotEncoded),
                Some(payload) => Ok(payload),
            },
        },
    }
}

/// The carrier and the payload for an encoded file. The carrier that comes
/// back is the encoded file as it stands.
pub open spec fn wav_decoding(encoded: Seq<u8>) -> Result<(Seq<u8>, Seq<u8>), ErrorKind> {
    match wav_layout(encoded) {
        None => Err(ErrorKind::Dependency),
        Some(layout) => match wav_payload_of(encoded, layout) {
            Err(kind) => Err(kind),
            Ok(payload) => Ok((encoded, payload)),
        },
    }
}

/// Decides `data_region_ok`.
pub fn check_data_region(carrier: &[u8], layout: &WavLayout, width: usize) -> (ok: bool)
    requires
        is_width(width as int),
    ensures
        ok == data_region_ok(carrier@, *layout, width as int),
{
    let len: u64 = carrier.len() as u64;
    let total: u64 = bytes_of_samples(layout.sample_count, width);
    if layout.data_start < 4 || layout.data_start > len || total > len - layout.data_start {
        return false;
    }
    let start: usize = layout.data_start as usize;
    let declared: u64 = u64_from_le(vstd::slice::slice_subrange(carrier, start - 4, start));
    declared == total
}

/// Copies the sample data out of a file.
pub fn copy_sample_data(carrier: &[u8], layout: &WavLayout, width: usize) -> (data: Vec<u8>)
    requires
        is_width(width as int),
        data_region_ok(carrier@, *layout, width as int),
    ensures
        data@ == sample_data(carrier@, *layout, width as int),
        sample_count(data@, width as int) == layout.sample_count,
{
    assert(carrier@.len() == carrier.len());
    let start: usize = layout.data_start as usize;
    let total: usize = bytes_of_samples(layout.sample_count, width) as usize;
    let mut data: Vec<u8> = Vec::new();
    data.extend_from_slice(vstd::slice::slice_subrange(carrier, start, start + total));
    proof {
        assert(data@ =~= sample_data(carrier@, *layout, width as int));
        if width == 1 {
            assert(total / 1 == layout.sample_count);
        } else if width == 2 {
            assert((layout.sample_count * 2) / 2 == layout.sample_count);
        } else {
            assert((layout.sample_count * 4) / 4 == layout.sample_count);
        }
    }
    data
}

/// Reads the little-endian bytes of the samples of a file whose header has
/// been read: integer samples through the reader, floating-point samples
/// as they stand in the file.
pub fn read_samples(carrier: &[u8], layout: &WavLayout, width: usize) -> (r: Result<
    Vec<u8>,
    CodecError,
>)
    requires
        is_width(width as int),
    ensures
        match r {
            Ok(data) => carrier_samples(carrier@, *layout, width as int) == Some(data@)
                && sample_count(data@, width as int) == layout.sample_count,
            Err(e) => carrier_samples(carrier@, *layout, width as int) is None && e.kind_spec()
                == ErrorKind::Dependency,
        },
{
    match layout.sample_format {
        SampleFormat::Float => {
            if !check_data_region(carrier, layout, width) {
                return Err(CodecError::DependencyError("Failed to read enough bytes.".to_string()));
            }
            Ok(copy_sample_data(carrier, layout, width))
        },
        SampleFormat::Int => {
            let values = match read_int_samples(carrier) {
                Ok(values) => values,
                Err(message) => {
                    return Err(CodecError::DependencyError(message));
                },
            };
            if values.len() as u64 != layout.sample_count as u64 {
                return Err(CodecError::DependencyError("Failed to read enough bytes.".to_string()));
            }
            match to_sample_bytes(&values, width) {
                Some(data) => Ok(data),
                None => Err(
                    CodecError::DependencyError("The sample has more bits than the file.".to_string()),
                ),
            }
        },
    }
}

/// Lays `payload` over the samples of a carrier whose header has been read,
/// and writes the file out again.
pub fn encode_samples(carrier: &[u8], layout: &WavLayout, payload: &[u8]) -> (r: Result<
    Vec<u8>,
    CodecError,
>)
    ensures
        crate::codec::encoded_view(r) == wav_encoding_of(carrier@, *layout, payload@),
{
    let width = match layout.sample_width() {
        Some(width) => width,
        None => {
            return Err(
                CodecError::DataInvalid(
                    "Provided WAV data has an unsupported number of bits per sample.".to_string(),
                ),
            );
        },
    };
    let mut data = match read_samples(carrier, layout, width) {
        Ok(data) => data,
        Err(e) => {
            return Err(e);
        },
    };
    if !layout.writable(width) {
        return Err(CodecError::DataInvalid("Provided WAV data cannot be written.".to_string()));
    }
    match encode(&mut data, width, payload) {
        Ok(_) => {},
        Err(e) => {
            return Err(e);
        },
    }
    let values = to_sample_values(data.as_slice(), width);
    match write_wav(layout, &values) {
        Ok(bytes) => Ok(bytes),
        Err(message) => Err(CodecError::DependencyError(message)),
    }
}

/// Reads the payload off the samples of a file whose header has been read.
pub fn decode_samples(encoded: &[u8], layout: &WavLayout) -> (r: Result<Vec<u8>, CodecError>)
    ensures
        match r {
            Ok(payload) => wav_payload_of(encoded@, *layout) == Ok::<Seq<u8>, ErrorKind>(
                payload@,
            ),
            Err(e) => wav_payload_of(encoded@, *layout) == Err::<Seq<u8>, ErrorKind>(
                e.kind_spec(),
            ),
        },
{
    let width = match layout.sample_width() {
        Some(width) => width,
        None => {
            return Err(CodecError::DataNotEncoded);
        },
    };
    match read_samples(encoded, layout, width) {
        Ok(data) => decode(data.as_slice(), width),
        Err(e) => Err(e),
    }
}

/// A least-significant-bit codec for WAV files. It stores one bit of
/// payload in each sample. The samples may be integers of 8, 16 or 32
/// bits, or floating-point values of 32 bits.
#[derive(Clone, Copy, Debug)]
pub struct LsbCodec;

impl Codec for LsbCodec {
    open spec fn encoding(&self, carrier: Seq<u8>, payload: Seq<u8>) -> Result<Seq<u8>, ErrorKind> {
        wav_encoding(carrier, payload)
    }

    open spec fn decoding(&self, encoded: Seq<u8>) -> Result<(Seq<u8>, Seq<u8>), ErrorKind> {
        wav_decoding(encoded)
    }

    fn encode(&self, carrier: &[u8], payload: &[u8]) -> (r: Result<Vec<u8>, CodecError>) {
        match read_wav_layout(carrier) {
            Ok(layout) => encode_samples(carrier, &layout, payload),
            Err(message) => Err(CodecError::DependencyError(message)),
        }
    }

    fn decode(&self, encoded: &[u8]) -> (r: Result<(Vec<u8>, Vec<u8>), CodecError>) {
        let layout = match read_wav_layout(encoded) {
            Ok(layout) => layout,
            Err(message) => {
                return Err(CodecError::DependencyError(message));
            },
        };
        match decode_samples(encoded, &layout) {
            Ok(payload) => {
                let mut carrier: Vec<u8> = Vec::new();
                carrier.extend_from_slice(encoded);
                assert(carrier@ =~= encoded@);
                Ok((carrier, payload))
            },
            Err(e) => Err(e),
        }
    }
}

/// Decoding an encoded file gives the payload back, for every payload that
/// the samples of the carrier have room for, whenever the written file
/// reads back as the samples that were written. The carrier that comes back
/// is the encoded file, not the one that went in.
pub proof fn lemma_wav_round_trip(carrier: Seq<u8>, payload: Seq<u8>, width: int)
    requires
        is_width(width),
        wav_layout(carrier) is Some,
        wav_layout(carrier)->Some_0.sample_width_spec() == Some(width),
        carrier_samples(carrier, wav_layout(carrier)->Some_0, width) is Some,
        has_capacity(
            carrier_samples(carrier, wav_layout(carrier)->Some_0, width)->Some_0,
            width,
            payload.len(),
        ),
        wav_encoding(carrier, payload) is Ok,
        wav_layout(wav_encoding(carrier, payload)->Ok_0) is Some,
        wav_layout(wav_encoding(carrier, payload)->Ok_0)->Some_0.sample_width_spec() == Some(
            width,
        ),
        carrier_samples(
            wav_encoding(carrier, payload)->Ok_0,
            wav_layout(wav_encoding(carrier, payload)->Ok_0)->Some_0,
            width,
        ) == Some(
            samples_encoding(
                carrier_samples(carrier, wav_layout(carrier)->Some_0, width)->Some_0,
                width,
                framed(payload),
            ),
        ),
    ensures
        wav_decoding(wav_encoding(carrier, payload)->Ok_0) == Ok::<(Seq<u8>, Seq<u8>), ErrorKind>(
            (wav_encoding(carrier, payload)->Ok_0, payload),
        ),
{
    lemma_samples_round_trip(
        carrier_samples(carrier, wav_layout(carrier)->Some_0, width)->Some_0,
        width,
        payload,
    );
}

/// Encoding refuses, as `Invalid`, every carrier whose samples are of a
/// kind that cannot carry payload, and every payload that the samples of
/// the carrier have no room for.
pub proof fn lemma_wav_rejects(carrier: Seq<u8>, payload: Seq<u8>)
    requires
        wav_layout(carrier) is Some,
        ({
            let layout = wav_layout(carrier)->Some_0;
            layout.sample_width_spec() is None || (carrier_samples(
                carrier,
                layout,
                layout.sample_width_spec()->Some_0,
            ) is Some && !has_capacity(
                carrier_samples(carrier, layout, layout.sample_width_spec()->Some_0)->Some_0,
                layout.sample_width_spec()->Some_0,
                payload.len(),
            ))
        }),
    ensures
        wav_encoding(carrier, payload) == Err::<Seq<u8>, ErrorKind>(ErrorKind::Invalid),
{
}

} // verus!
