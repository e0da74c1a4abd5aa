//! A payload split over comment segments in a list of JPEG segments.
//!
//! A segment is modelled as a triple: its marker byte, its contents, and
//! the entropy-coded data that follows it. The payload, with an eight-byte
//! little-endian segment count in front, is cut into chunks that each fit
//! one segment, and the chunks become comment segments that stand one
//! after the other from a chosen index on.

use vstd::prelude::*;
use crate::framing::{le_bytes, le_value, lemma_le_bytes_len, lemma_le_value_of_bytes,
    lemma_pow256_values};

verus! {

/// The marker byte of a comment segment.
pub const COMMENT_MARKER: u8 = 0xFE;

/// The most bytes that one segment holds: what a 16-bit length field can
/// count, less the two bytes of the field itself.
pub const CHUNK_SIZE: usize = 65533;

/// Width in bytes of the segment count in front of the payload.
pub const COUNT_FIELD: usize = 8;

/// The comment segment that holds `chunk`.
pub open spec fn comment_segment(chunk: Seq<u8>) -> (u8, Seq<u8>, Seq<u8>) {
    (COMMENT_MARKER, chunk, Seq::empty())
}

/// The number of segments that a payload of `payload_len` bytes takes,
/// count field included.
pub open spec fn segment_count(payload_len: nat) -> nat {
    ((payload_len + 8 + 65532) / 65533) as nat
}

/// The payload with the segment count in front of it.
pub open spec fn framed(payload: Seq<u8>) -> Seq<u8> {
    le_bytes(segment_count(payload.len()), 8) + payload
}

/// Chunk `i` of a buffer: `CHUNK_SIZE` bytes, fewer for the last one.
pub open spec fn chunk(buffer: Seq<u8>, i: int) -> Seq<u8> {
    buffer.subrange(
        i * 65533,
        if (i + 1) * 65533 <= buffer.len() {
            (i + 1) * 65533
        } else {
            buffer.len() as int
        },
    )
}

/// The comment segments that carry `payload`, in order.
pub open spec fn payload_segments(payload: Seq<u8>) -> Seq<(u8, Seq<u8>, Seq<u8>)> {
    Seq::new(segment_count(payload.len()), |i: int| comment_segment(chunk(framed(payload), i)))
}

/// The segment list with the payload's segments put in at `start`; the
/// segments that stood at `start` and after come behind them.
pub open spec fn segments_encoding(
    segments: Seq<(u8, Seq<u8>, Seq<u8>)>,
    start: int,
    payload: Seq<u8>,
) -> Seq<(u8, Seq<u8>, Seq<u8>)>
    recommends
        0 <= start <= segments.len(),
{
    segments.subrange(0, start) + payload_segments(payload) + segments.subrange(
        start,
        segments.len() as int,
    )
}

/// The contents of the segments from `from` up to `to`, one after the other.
pub open spec fn joined_contents(segments: Seq<(u8, Seq<u8>, Seq<u8>)>, from: int, to: int) -> Seq<
    u8,
>
    decreases to - from,
{
    if from >= to {
        Seq::empty()
    } else {
        joined_contents(segments, from, to - 1) + segments[to - 1].1
    }
}

/// The segment count that the segment at `start` declares.
pub open spec fn declared_count(segments: Seq<(u8, Seq<u8>, Seq<u8>)>, start: int) -> nat
    recommends
        0 <= start < segments.len(),
        segments[start].1.len() >= 8,
{
    le_value(segments[start].1.subrange(0, 8))
}

/// Whether the segments from `start` on are framed as this codec frames
/// them: a comment segment that opens with a count of at least one, and
/// that many comment segments in all.
pub open spec fn has_payload_segments(segments: Seq<(u8, Seq<u8>, Seq<u8>)>, start: int) -> bool {
    &&& 0 <= start < segments.len()
    &&& segments[start].0 == COMMENT_MARKER
    &&& segments[start].1.len() >= 8
    &&& 1 <= declared_count(segments, start)
    &&& start + declared_count(segments, start) <= segments.len()
    &&& forall|i: int|
        start <= i < start + declared_count(segments, start) ==> (#[trigger] segments[i]).0
            == COMMENT_MARKER
}

/// The segment list without the payload's segments, and the payload, or
/// `None` where the segments from `start` on are not framed as payload.
pub open spec fn segments_decoding(segments: Seq<(u8, Seq<u8>, Seq<u8>)>, start: int) -> Option<
    (Seq<(u8, Seq<u8>, Seq<u8>)>, Seq<u8>),
> {
    if has_payload_segments(segments, start) {
        let count = declared_count(segments, start) as int;
        let all = joined_contents(segments, start, start + count);
        Some(
            (
                segments.subrange(0, start) + segments.subrange(
                    start + count,
                    segments.len() as int,
                ),
                all.subrange(8, all.len() as int),
            ),
        )
    } else {
        None
    }
}

/// Whether every segment is short enough to be written with a 16-bit
/// length field.
pub open spec fn fits_length_field(segments: Seq<(u8, Seq<u8>, Seq<u8>)>) -> bool {
    forall|i: int| 0 <= i < segments.len() ==> (#[trigger] segments[i]).1.len() <= 65533
}

/// The chunks of a buffer cover it: each is at most `CHUNK_SIZE` bytes, all
/// but the last are full, and the last is not empty.
pub proof fn lemma_chunk_len(len: nat, i: int)
    requires
        0 <= i < (len + 65532) / 65533,
    ensures
        i * 65533 < len,
        (i + 1) * 65533 <= len <==> i + 1 < (len + 65532) / 65533 || len == (i + 1) * 65533,
        i + 1 < (len + 65532) / 65533 ==> (i + 1) * 65533 < len,
{
}

/// The chunks up to chunk `k`, one after the other, are the buffer's first
/// `k * CHUNK_SIZE` bytes, or all of it.
pub proof fn lemma_joined_chunks(
    segments: Seq<(u8, Seq<u8>, Seq<u8>)>,
    start: int,
    buffer: Seq<u8>,
    k: int,
)
    requires
        0 <= start,
        0 <= k <= (buffer.len() + 65532) / 65533,
        start + k <= segments.len(),
        forall|i: int| 0 <= i < k ==> (#[trigger] segments[start + i]).1 == chunk(buffer, i),
    ensures
        joined_contents(segments, start, start + k) == buffer.subrange(
            0,
            if k * 65533 <= buffer.len() {
                k * 65533
            } else {
                buffer.len() as int
            },
        ),
    decreases k,
{
    if k == 0 {
        assert(joined_contents(segments, start, start) =~= buffer.subrange(0, 0));
    } else {
        lemma_joined_chunks(segments, start, buffer, k - 1);
        lemma_chunk_len(buffer.len(), k - 1);
        assert(segments[start + (k - 1)].1 == chunk(buffer, k - 1));
        assert(joined_contents(segments, start, start + k) =~= buffer.subrange(
            0,
            if k * 65533 <= buffer.len() {
                k * 65533
            } else {
                buffer.len() as int
            },
        ));
    }
}

/// Taking the payload's segments out of an encoded segment list gives back
/// the list and the payload exactly.
pub proof fn lemma_segments_round_trip(
    segments: Seq<(u8, Seq<u8>, Seq<u8>)>,
    start: int,
    payload: Seq<u8>,
)
    requires
        0 <= start <= segments.len(),
        payload.len() + 8 < 0x1_0000_0000_0000_0000,
    ensures
        segments_decoding(segments_encoding(segments, start, payload), start) == Some(
            (segments, payload),
        ),
{
    let count = segment_count(payload.len());
    let buffer = framed(payload);
    let encoded = segments_encoding(segments, start, payload);
    lemma_le_bytes_len(count, 8);
    lemma_pow256_values();
    lemma_le_value_of_bytes(count, 8);
    assert(buffer.len() == payload.len() + 8);
    assert(count >= 1);
    lemma_chunk_len(buffer.len(), 0);
    assert(encoded[start] == comment_segment(chunk(buffer, 0)));
    assert(encoded[start].1.subrange(0, 8) =~= le_bytes(count, 8));
    assert(declared_count(encoded, start) == count);
    assert forall|i: int| start <= i < start + count implies (#[trigger] encoded[i]).0
        == COMMENT_MARKER by {
        assert(encoded[i] == payload_segments(payload)[i - start]);
    }
    assert forall|i: int| 0 <= i < count implies (#[trigger] encoded[start + i]).1 == chunk(
        buffer,
        i,
    ) by {
        assert(encoded[start + i] == payload_segments(payload)[i]);
    }
    lemma_joined_chunks(encoded, start, buffer, count as int);
    let all = joined_contents(encoded, start, start + count);
    assert(all =~= buffer);
    assert(all.subrange(8, all.len() as int) =~= payload);
    assert(encoded.subrange(0, start) + encoded.subrange(start + count, encoded.len() as int)
        =~= segments);
}

/// A payload of two full chunks and one byte takes three segments.
pub proof fn lemma_three_segments()
    ensures
        segment_count((65533 * 2 + 1) as nat) == 3,
{
}

/// Putting payload segments in keeps every segment short enough for its
/// length field.
pub proof fn lemma_encoding_fits(
    segments: Seq<(u8, Seq<u8>, Seq<u8>)>,
    start: int,
    payload: Seq<u8>,
)
    requires
        0 <= start <= segments.len(),
        fits_length_field(segments),
    ensures
        fits_length_field(segments_encoding(segments, start, payload)),
{
    let encoded = segments_encoding(segments, start, payload);
    let count = segment_count(payload.len()) as int;
    lemma_le_bytes_len(segment_count(payload.len()), 8);
    assert forall|i: int| 0 <= i < encoded.len() implies (#[trigger] encoded[i]).1.len()
        <= 65533 by {
        if i < start {
            assert(encoded[i] == segments[i]);
        } else if i < start + count {
            assert(encoded[i] == payload_segments(payload)[i - start]);
            lemma_chunk_len(framed(payload).len(), i - start);
        } else {
            assert(encoded[i] == segments[i - count]);
        }
    }
}

} // verus!
