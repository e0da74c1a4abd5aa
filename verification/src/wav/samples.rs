//! Payload bits laid over audio samples.
//!
//! The samples are held as their little-endian bytes, `width` bytes each,
//! one after the other. The payload goes out behind a four-byte
//! little-endian header that holds its length plus four. Each byte of that
//! stream takes a group of eight samples, one bit per sample, most
//! significant bit first. The bit is bit 0 of the second byte of the
//! sample; a sample of a single byte carries it in bit 0 of that byte.

use vstd::prelude::*;
use crate::codec::CodecError;
use crate::framing::{le_bytes, le_value, lemma_le_bytes_len, lemma_le_value_of_bytes,
    lemma_pow256_values, u32_to_le, u64_from_le};

verus! {

/// Samples in a group, and bits in a byte.
pub const GROUP: usize = 8;

/// Width in bytes of the length header.
pub const HEADER: usize = 4;

/// Whether samples can be `width` bytes long.
pub open spec fn is_width(width: int) -> bool {
    width == 1 || width == 2 || width == 4
}

/// The index, within a sample, of the byte that carries the bit.
pub open spec fn carrying_byte(width: int) -> int {
    if width >= 2 {
        1
    } else {
        0
    }
}

/// The number of whole samples in `data`.
pub open spec fn sample_count(data: Seq<u8>, width: int) -> int {
    data.len() as int / width
}

/// The bit that sample `k` carries.
pub open spec fn sample_bit(data: Seq<u8>, width: int, k: int) -> u8 {
    data[k * width + carrying_byte(width)] & 0x01
}

/// Bit `7 - j` of a byte: the bit that sample `j` of a group carries.
pub open spec fn byte_bit(byte: u8, j: int) -> u8 {
    (byte >> ((7 - j) as u8)) & 0x01
}

/// A carrying byte with its bit 0 replaced by `bit`.
pub open spec fn with_bit(byte: u8, bit: u8) -> u8 {
    (byte & 0xFE) | bit
}

/// The stream that goes over the samples: the header, then the payload.
pub open spec fn framed(payload: Seq<u8>) -> Seq<u8> {
    le_bytes((payload.len() + 4) as nat, 4) + payload
}

/// The samples after `stream` has been written over them: sample `k`
/// carries bit `7 - k % 8` of byte `k / 8`, and the samples past the stream
/// are as they were. No other byte of any sample changes.
pub open spec fn samples_encoding(data: Seq<u8>, width: int, stream: Seq<u8>) -> Seq<u8> {
    Seq::new(
        data.len(),
        |p: int|
            if p % width == carrying_byte(width) && p / width < 8 * stream.len() {
                with_bit(data[p], byte_bit(stream[(p / width) / 8], (p / width) % 8))
            } else {
                data[p]
            },
    )
}

/// The byte that the eight samples of group `g` spell.
pub open spec fn group_byte(data: Seq<u8>, width: int, g: int) -> u8 {
    (sample_bit(data, width, 8 * g) << 7) | (sample_bit(data, width, 8 * g + 1) << 6) | (sample_bit(
        data,
        width,
        8 * g + 2,
    ) << 5) | (sample_bit(data, width, 8 * g + 3) << 4) | (sample_bit(data, width, 8 * g + 4) << 3)
        | (sample_bit(data, width, 8 * g + 5) << 2) | (sample_bit(data, width, 8 * g + 6) << 1)
        | sample_bit(data, width, 8 * g + 7)
}

/// The length that the first four groups declare: the payload's length
/// plus four.
pub open spec fn declared_length(data: Seq<u8>, width: int) -> nat {
    le_value(Seq::new(4, |g: int| group_byte(data, width, g)))
}

/// Whether the samples are framed as this codec frames them: a header of
/// four groups that declares at least its own four bytes, and eight
/// samples behind the header for every byte of payload that it declares.
pub open spec fn has_payload(data: Seq<u8>, width: int) -> bool {
    &&& sample_count(data, width) >= 32
    &&& declared_length(data, width) >= 4
    &&& 8 * (declared_length(data, width) - 4) <= sample_count(data, width) - 32
}

/// The payload that the samples hold, or `None` where they are not framed
/// as payload.
pub open spec fn samples_decoding(data: Seq<u8>, width: int) -> Option<Seq<u8>> {
    if has_payload(data, width) {
        Some(
            Seq::new(
                (declared_length(data, width) - 4) as nat,
                |i: int| group_byte(data, width, 4 + i),
            ),
        )
    } else {
        None
    }
}

/// Whether the samples can take a payload of `payload_len` bytes: eight
/// samples for each byte of payload and header, and a length that the
/// header can state.
pub open spec fn has_capacity(data: Seq<u8>, width: int, payload_len: nat) -> bool {
    &&& payload_len + 4 <= u32::MAX
    &&& 8 * (payload_len + 4) <= sample_count(data, width)
}

/// Where byte `p` of the sample data lies: in sample `k`, at byte
/// `p - k * width` of it.
pub proof fn lemma_sample_position(p: int, width: int, k: int)
    requires
        is_width(width),
        k * width <= p < k * width + width,
    ensures
        p / width == k,
        p % width == p - k * width,
{
    if width == 1 {
        assert(k * 1 <= p < k * 1 + 1);
    } else if width == 2 {
        assert(k * 2 <= p < k * 2 + 2);
    } else {
        assert(k * 4 <= p < k * 4 + 4);
    }
}

/// Sample `k` lies inside the data if the data has more than `k` samples.
pub proof fn lemma_sample_bounds(len: int, width: int, k: int)
    requires
        is_width(width),
        0 <= k < len / width,
        len >= 0,
    ensures
        0 <= k * width,
        k * width + width <= len,
        0 <= carrying_byte(width) < width,
{
    if width == 1 {
        assert(k * 1 + 1 <= len);
    } else if width == 2 {
        assert(k * 2 + 2 <= len);
    } else {
        assert(len / 4 * 4 <= len);
        assert(k + 1 <= len / 4);
        assert(k * 4 + 4 <= len);
    }
}

/// Sample `k` of a group `g` is sample `8 * g + j` for one `j` below eight.
pub proof fn lemma_group_position(k: int, g: int, j: int)
    requires
        0 <= j < 8,
        k == 8 * g + j,
    ensures
        k / 8 == g,
        k % 8 == j,
{
}

/// A bit written into a carrying byte reads back, and the other seven bits
/// of the byte stay.
pub proof fn lemma_bit_reads_back(byte: u8, source: u8, shift: u8)
    by (bit_vector)
    requires
        shift < 8,
    ensures
        ((byte & 0xFE) | ((source >> shift) & 0x01)) & 0x01 == (source >> shift) & 0x01,
        ((byte & 0xFE) | ((source >> shift) & 0x01)) & 0xFE == byte & 0xFE,
{
}

/// The eight bits of a byte, each put back in its place, are the byte.
pub proof fn lemma_bits_rejoin(byte: u8)
    by (bit_vector)
    ensures
        ((((byte >> 7) & 0x01) << 7) | (((byte >> 6) & 0x01) << 6) | (((byte >> 5) & 0x01) << 5) | (((
        byte >> 4) & 0x01) << 4) | (((byte >> 3) & 0x01) << 3) | (((byte >> 2) & 0x01) << 2) | (((byte
            >> 1) & 0x01) << 1) | ((byte >> 0) & 0x01)) == byte,
{
}

/// In written samples, sample `8 * g + j` carries bit `7 - j` of byte `g`
/// of the stream.
pub proof fn lemma_encoded_bit(data: Seq<u8>, width: int, stream: Seq<u8>, g: int, j: int)
    requires
        is_width(width),
        0 <= g < stream.len(),
        0 <= j < 8,
        8 * stream.len() <= sample_count(data, width),
    ensures
        sample_bit(samples_encoding(data, width, stream), width, 8 * g + j) == byte_bit(
            stream[g],
            j,
        ),
{
    let k = 8 * g + j;
    let p = k * width + carrying_byte(width);
    lemma_sample_bounds(data.len() as int, width, k);
    lemma_sample_position(p, width, k);
    lemma_group_position(k, g, j);
    lemma_bit_reads_back(data[p], stream[g], (7 - j) as u8);
}

/// In written samples, group `g` spells byte `g` of the stream.
pub proof fn lemma_encoded_group(data: Seq<u8>, width: int, stream: Seq<u8>, g: int)
    requires
        is_width(width),
        0 <= g < stream.len(),
        8 * stream.len() <= sample_count(data, width),
    ensures
        group_byte(samples_encoding(data, width, stream), width, g) == stream[g],
{
    lemma_encoded_bit(data, width, stream, g, 0);
    lemma_encoded_bit(data, width, stream, g, 1);
    lemma_encoded_bit(data, width, stream, g, 2);
    lemma_encoded_bit(data, width, stream, g, 3);
    lemma_encoded_bit(data, width, stream, g, 4);
    lemma_encoded_bit(data, width, stream, g, 5);
    lemma_encoded_bit(data, width, stream, g, 6);
    lemma_encoded_bit(data, width, stream, g, 7);
    lemma_bits_rejoin(stream[g]);
}

/// Written samples are as many as before, and their groups spell the
/// stream, byte by byte.
pub proof fn lemma_encoded_groups(data: Seq<u8>, width: int, stream: Seq<u8>)
    requires
        is_width(width),
        8 * stream.len() <= sample_count(data, width),
    ensures
        sample_count(samples_encoding(data, width, stream), width) == sample_count(data, width),
        forall|g: int|
            0 <= g < stream.len() ==> #[trigger] group_byte(
                samples_encoding(data, width, stream),
                width,
                g,
            ) == stream[g],
{
    assert forall|g: int| 0 <= g < stream.len() implies #[trigger] group_byte(
        samples_encoding(data, width, stream),
        width,
        g,
    ) == stream[g] by {
        lemma_encoded_group(data, width, stream, g);
    }
}

/// Reading written samples gives the payload back, for every payload that
/// the samples have room for.
pub proof fn lemma_samples_round_trip(data: Seq<u8>, width: int, payload: Seq<u8>)
    requires
        is_width(width),
        has_capacity(data, width, payload.len()),
    ensures
        samples_decoding(samples_encoding(data, width, framed(payload)), width) == Some(payload),
{
    let stream = framed(payload);
    let written = samples_encoding(data, width, stream);
    let length = (payload.len() + 4) as nat;
    let header = le_bytes(length, 4);
    lemma_le_bytes_len(length, 4);
    lemma_pow256_values();
    lemma_le_value_of_bytes(length, 4);
    assert(stream.len() == payload.len() + 4);
    lemma_encoded_groups(data, width, stream);
    assert(Seq::new(4, |g: int| group_byte(written, width, g)) =~= header) by {
        assert forall|g: int| 0 <= g < 4 implies group_byte(written, width, g) == header[g] by {
            assert(stream[g] == header[g]);
        }
    }
    assert(declared_length(written, width) == length);
    assert(has_payload(written, width));
    assert(Seq::new(payload.len(), |i: int| group_byte(written, width, 4 + i)) =~= payload) by {
        assert forall|i: int| 0 <= i < payload.len() implies group_byte(written, width, 4 + i)
            == payload[i] by {
            assert(stream[4 + i] == payload[i]);
        }
    }
}

/// A byte put together from eight bits gives each bit back in its place.
pub proof fn lemma_bits_read_back(
    b0: u8,
    b1: u8,
    b2: u8,
    b3: u8,
    b4: u8,
    b5: u8,
    b6: u8,
    b7: u8,
    shift: u8,
)
    by (bit_vector)
    requires
        shift < 8,
    ensures
        ((((b0 & 0x01) << 7) | ((b1 & 0x01) << 6) | ((b2 & 0x01) << 5) | ((b3 & 0x01) << 4) | ((b4
            & 0x01) << 3) | ((b5 & 0x01) << 2) | ((b6 & 0x01) << 1) | (b7 & 0x01)) >> shift) & 0x01
            == (if shift == 7 {
            b0
        } else if shift == 6 {
            b1
        } else if shift == 5 {
            b2
        } else if shift == 4 {
            b3
        } else if shift == 3 {
            b4
        } else if shift == 2 {
            b5
        } else if shift == 1 {
            b6
        } else {
            b7
        }) & 0x01,
{
}

/// Writing a byte its own bit 0 leaves it as it is.
pub proof fn lemma_own_bit(byte: u8)
    by (bit_vector)
    ensures
        (byte & 0xFE) | (byte & 0x01) == byte,
{
}

/// Bit `7 - j` of the byte that a group spells is the bit that sample `j`
/// of the group carries.
pub proof fn lemma_group_bit(data: Seq<u8>, width: int, g: int, j: int)
    requires
        0 <= j < 8,
    ensures
        byte_bit(group_byte(data, width, g), j) == sample_bit(data, width, 8 * g + j),
{
    let at = |k: int| data[(8 * g + k) * width + carrying_byte(width)];
    lemma_bits_read_back(at(0), at(1), at(2), at(3), at(4), at(5), at(6), at(7), (7 - j) as u8);
}

/// Whatever reads as a payload is what writing that payload leaves as it
/// is: samples are taken for encoded only if encoding their payload over
/// them changes nothing.
pub proof fn lemma_decoding_is_fixed_point(data: Seq<u8>, width: int)
    requires
        is_width(width),
        samples_decoding(data, width) is Some,
    ensures
        has_capacity(data, width, samples_decoding(data, width)->Some_0.len()),
        samples_encoding(data, width, framed(samples_decoding(data, width)->Some_0)) == data,
{
    let payload = samples_decoding(data, width)->Some_0;
    let stream = framed(payload);
    let header = Seq::new(4, |g: int| group_byte(data, width, g));
    let length = declared_length(data, width);
    crate::framing::lemma_le_value_bound(header);
    lemma_pow256_values();
    crate::framing::lemma_le_bytes_of_value(header);
    assert(length == payload.len() + 4);
    assert(stream.len() == payload.len() + 4);
    assert forall|g: int| 0 <= g < stream.len() implies stream[g] == group_byte(data, width, g) by {
        if g < 4 {
            assert(stream[g] == header[g]);
        } else {
            assert(stream[g] == payload[g - 4]);
        }
    }
    let written = samples_encoding(data, width, stream);
    assert forall|p: int| 0 <= p < data.len() implies written[p] == data[p] by {
        if p % width == carrying_byte(width) && p / width < 8 * stream.len() {
            let k = p / width;
            let g = k / 8;
            let j = k % 8;
            lemma_sample_span(p, width, k);
            lemma_sample_position(p, width, k);
            assert(p == k * width + carrying_byte(width));
            assert(k == 8 * g + j);
            lemma_group_bit(data, width, g, j);
            lemma_own_bit(data[p]);
        }
    }
    assert(written =~= data);
}

/// Writing keeps every bit of the samples but bit 0 of the carrying bytes.
pub proof fn lemma_encoding_keeps_other_bits(data: Seq<u8>, width: int, stream: Seq<u8>, p: int)
    requires
        is_width(width),
        0 <= p < data.len(),
    ensures
        samples_encoding(data, width, stream)[p] & 0xFE == data[p] & 0xFE,
        p % width != carrying_byte(width) ==> samples_encoding(data, width, stream)[p] == data[p],
{
    if p % width == carrying_byte(width) && p / width < 8 * stream.len() {
        let k = p / width;
        assert(0 <= k % 8 < 8);
        lemma_bit_reads_back(data[p], stream[k / 8], (7 - k % 8) as u8);
    }
}

/// The samples after byte `byte` has been written over group `group`: the
/// eight samples of the group carry its bits, all else is as it was.
pub open spec fn group_encoding(data: Seq<u8>, width: int, group: int, byte: u8) -> Seq<u8> {
    Seq::new(
        data.len(),
        |p: int|
            if p % width == carrying_byte(width) && (p / width) / 8 == group {
                with_bit(data[p], byte_bit(byte, (p / width) % 8))
            } else {
                data[p]
            },
    )
}

/// Reads the bit that sample `k` carries.
pub fn read_bit(data: &[u8], width: usize, k: usize) -> (bit: u8)
    requires
        is_width(width as int),
        k < sample_count(data@, width as int),
    ensures
        bit == sample_bit(data@, width as int, k as int),
{
    proof {
        lemma_sample_bounds(data.len() as int, width as int, k as int);
    }
    let at: usize = if width >= 2 {
        k * width + 1
    } else {
        k * width
    };
    data[at] & 0x01
}

/// Reads the byte that the eight samples of group `g` spell.
pub fn read_group(data: &[u8], width: usize, g: usize) -> (byte: u8)
    requires
        is_width(width as int),
        8 * (g + 1) <= sample_count(data@, width as int),
    ensures
        byte == group_byte(data@, width as int, g as int),
{
    proof {
        lemma_sample_bounds(data.len() as int, width as int, 8 * g as int);
    }
    let first: usize = 8 * g;
    (read_bit(data, width, first) << 7) | (read_bit(data, width, first + 1) << 6) | (read_bit(
        data,
        width,
        first + 2,
    ) << 5) | (read_bit(data, width, first + 3) << 4) | (read_bit(data, width, first + 4) << 3) | (
    read_bit(data, width, first + 5) << 2) | (read_bit(data, width, first + 6) << 1) | read_bit(
        data,
        width,
        first + 7,
    )
}

/// Writes the bits of `payload_byte` over the eight samples of group
/// `group`, most significant bit first.
pub fn encode_byte(data: &mut Vec<u8>, width: usize, group: usize, payload_byte: u8)
    requires
        is_width(width as int),
        8 * (group + 1) <= sample_count(old(data)@, width as int),
    ensures
        final(data)@ == group_encoding(old(data)@, width as int, group as int, payload_byte),
{
    let ghost orig = data@;
    let ghost goal = group_encoding(orig, width as int, group as int, payload_byte);
    assert(orig.len() == data.len());
    let mut j: usize = 0;
    while j < 8
        invariant
            j <= 8,
            is_width(width as int),
            orig.len() <= usize::MAX,
            data@.len() == orig.len(),
            8 * (group + 1) <= sample_count(orig, width as int),
            goal == group_encoding(orig, width as int, group as int, payload_byte),
            forall|p: int|
                0 <= p < orig.len() ==> data@[p] == if p / (width as int) < 8 * group + j {
                    goal[p]
                } else {
                    orig[p]
                },
        decreases 8 - j,
    {
        let k: usize = 8 * group + j;
        proof {
            lemma_sample_bounds(orig.len() as int, width as int, k as int);
            lemma_group_position(k as int, group as int, j as int);
        }
        let at: usize = if width >= 2 {
            k * width + 1
        } else {
            k * width
        };
        let shift: u8 = 7 - j as u8;
        let bit: u8 = (payload_byte >> shift) & 0x01;
        data[at] = (data[at] & 0xFE) | bit;
        proof {
            lemma_sample_position(at as int, width as int, k as int);
            assert forall|p: int| 0 <= p < orig.len() implies data@[p] == if p / (width as int) < 8
                * group + j + 1 {
                goal[p]
            } else {
                orig[p]
            } by {
                if p / (width as int) == k {
                    lemma_sample_span(p, width as int, k as int);
                    if p != at {
                        lemma_sample_position(p, width as int, k as int);
                    }
                }
            }
        }
        j += 1;
    }
    proof {
        assert forall|p: int| 0 <= p < orig.len() implies data@[p] == goal[p] by {
            if p / (width as int) >= 8 * group + 8 {
                lemma_other_group(p / (width as int), group as int);
            }
        }
        assert(data@ =~= goal);
    }
}

/// A byte whose sample is sample `k` lies within the `width` bytes of it.
pub proof fn lemma_sample_span(p: int, width: int, k: int)
    requires
        is_width(width),
        0 <= p,
        p / width == k,
    ensures
        k * width <= p < k * width + width,
{
    if width == 1 {
        assert(p / 1 == p);
    } else if width == 2 {
        assert(p / 2 * 2 <= p < p / 2 * 2 + 2);
    } else {
        assert(p / 4 * 4 <= p < p / 4 * 4 + 4);
    }
}

/// A sample outside the eight samples of a group belongs to another group.
pub proof fn lemma_other_group(k: int, group: int)
    requires
        k < 8 * group || k >= 8 * group + 8,
    ensures
        k / 8 != group,
{
}

/// Writes `payload`, behind its length header, over the samples. Nothing
/// is written where the samples have no room for it.
pub fn encode(data: &mut Vec<u8>, width: usize, payload: &[u8]) -> (r: Result<(), CodecError>)
    requires
        is_width(width as int),
    ensures
        match r {
            Ok(_) => has_capacity(old(data)@, width as int, payload@.len()) && final(data)@
                == samples_encoding(old(data)@, width as int, framed(payload@)),
            Err(e) => !has_capacity(old(data)@, width as int, payload@.len()) && e.kind_spec()
                == crate::codec::ErrorKind::Invalid && final(data)@ == old(data)@,
        },
{
    let ghost orig = data@;
    let samples: usize = data.len() / width;
    if payload.len() > (u32::MAX - 4) as usize || payload.len() + HEADER > samples / GROUP {
        return Err(CodecError::DataInvalid("Payload Too Big for Carrier".to_string()));
    }
    let mut stream = u32_to_le((payload.len() + HEADER) as u32);
    stream.extend_from_slice(payload);
    proof {
        lemma_le_bytes_len((payload@.len() + 4) as nat, 4);
        assert(stream@ =~= framed(payload@));
    }
    let ghost goal = samples_encoding(orig, width as int, stream@);
    let mut g: usize = 0;
    while g < stream.len()
        invariant
            g <= stream@.len(),
            is_width(width as int),
            orig == old(data)@,
            data@.len() == orig.len(),
            8 * stream@.len() <= sample_count(orig, width as int),
            goal == samples_encoding(orig, width as int, stream@),
            forall|p: int|
                0 <= p < orig.len() ==> data@[p] == if (p / (width as int)) / 8 < g {
                    goal[p]
                } else {
                    orig[p]
                },
        decreases stream@.len() - g,
    {
        let ghost before = data@;
        assert(sample_count(before, width as int) == sample_count(orig, width as int));
        encode_byte(data, width, g, stream[g]);
        proof {
            assert forall|p: int| 0 <= p < orig.len() implies data@[p] == if (p / (width as int))
                / 8 < g + 1 {
                goal[p]
            } else {
                orig[p]
            } by {
                lemma_groups_below(p / (width as int), g as int, stream@.len() as int);
            }
        }
        g += 1;
    }
    proof {
        assert forall|p: int| 0 <= p < orig.len() implies data@[p] == goal[p] by {
            lemma_groups_below(p / (width as int), stream@.len() as int, stream@.len() as int);
        }
        assert(data@ =~= goal);
    }
    Ok(())
}

/// A sample lies in a group below `g` exactly if it comes before the first
/// sample of group `g`.
pub proof fn lemma_groups_below(k: int, g: int, count: int)
    requires
        0 <= g <= count,
    ensures
        k / 8 < g <==> k < 8 * g,
        k / 8 == g <==> 8 * g <= k < 8 * g + 8,
        k / 8 < g ==> k < 8 * count,
{
}

/// Reads the payload that the samples hold.
pub fn decode(data: &[u8], width: usize) -> (r: Result<Vec<u8>, CodecError>)
    requires
        is_width(width as int),
    ensures
        match r {
            Ok(payload) => samples_decoding(data@, width as int) == Some(payload@),
            Err(e) => samples_decoding(data@, width as int) is None && e.kind_spec()
                == crate::codec::ErrorKind::NotEncoded,
        },
{
    let samples: usize = data.len() / width;
    if samples < HEADER * GROUP {
        return Err(CodecError::DataNotEncoded);
    }
    let mut header: Vec<u8> = Vec::new();
    let mut g: usize = 0;
    while g < HEADER
        invariant
            g <= 4,
            is_width(width as int),
            samples == sample_count(data@, width as int),
            samples >= 32,
            header@.len() == g,
            forall|i: int| 0 <= i < g ==> header@[i] == group_byte(data@, width as int, i),
        decreases 4 - g,
    {
        header.push(read_group(data, width, g));
        g += 1;
    }
    assert(header@ =~= Seq::new(4, |g: int| group_byte(data@, width as int, g)));
    let declared: u64 = u64_from_le(header.as_slice());
    if declared < HEADER as u64 {
        return Err(CodecError::DataNotEncoded);
    }
    let groups: usize = (samples - HEADER * GROUP) / GROUP;
    if declared - HEADER as u64 > groups as u64 {
        return Err(CodecError::DataNotEncoded);
    }
    let length: usize = (declared - HEADER as u64) as usize;
    let mut payload: Vec<u8> = Vec::new();
    let mut i: usize = 0;
    while i < length
        invariant
            i <= length,
            is_width(width as int),
            samples == sample_count(data@, width as int),
            8 * length <= samples - 32,
            payload@.len() == i,
            forall|n: int| 0 <= n < i ==> payload@[n] == group_byte(data@, width as int, 4 + n),
        decreases length - i,
    {
        payload.push(read_group(data, width, HEADER + i));
        i += 1;
    }
    assert(payload@ =~= Seq::new(length as nat, |i: int| group_byte(data@, width as int, 4 + i)));
    Ok(payload)
}

} // verus!
