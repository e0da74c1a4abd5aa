//! Payload stored in comment segments of a JPEG file.

use vstd::prelude::*;
use crate::codec::{Codec, CodecError, ErrorKind};
use crate::framing::{lemma_le_bytes_len, u64_from_le, u64_to_le};
use crate::jpeg::chunks::{chunk, comment_segment, declared_count, fits_length_field, framed,
    joined_contents, lemma_chunk_len, lemma_encoding_fits, lemma_segments_round_trip,
    payload_segments, segment_count, segments_decoding, segments_encoding, CHUNK_SIZE,
    COMMENT_MARKER, COUNT_FIELD};

verus! {

/// A JPEG file as the `img_parts` crate holds it, as an opaque value.
#[verifier::external_type_specification]
#[verifier::external_body]
pub struct ExJpeg(img_parts::jpeg::Jpeg);

/// The segments that a `Jpeg` holds, in order: for each its marker, its
/// contents and its entropy-coded data.
pub uninterp spec fn jpeg_segments(jpeg: img_parts::jpeg::Jpeg) -> Seq<(u8, Seq<u8>, Seq<u8>)>;

/// The segments that `Jpeg::from_bytes` reads from a buffer, or `None`
/// where it fails.
pub uninterp spec fn parsed_segments(carrier: Seq<u8>) -> Option<Seq<(u8, Seq<u8>, Seq<u8>)>>;

/// The file that the encoder of a `Jpeg` writes for a list of segments.
pub uninterp spec fn written_jpeg(segments: Seq<(u8, Seq<u8>, Seq<u8>)>) -> Seq<u8>;

/// Calls `Jpeg::from_bytes`. The segments read depend on the buffer alone.
/// The contents of each are at most 65533 bytes, since their length is
/// read from a 16-bit field that counts its own two bytes.
#[verifier::external_body]
fn parse_jpeg(carrier: &[u8]) -> (r: Result<img_parts::jpeg::Jpeg, String>)
    ensures
        r is Ok <==> parsed_segments(carrier@) is Some,
        r is Ok ==> jpeg_segments(r->Ok_0) == parsed_segments(carrier@)->Some_0,
        r is Ok ==> fits_length_field(jpeg_segments(r->Ok_0)),
{
    img_parts::jpeg::Jpeg::from_bytes(carrier.to_vec().into()).map_err(|e| e.to_string())
}

/// Calls `Vec::len` on the segments of a `Jpeg`.
#[verifier::external_body]
fn count_segments(jpeg: &img_parts::jpeg::Jpeg) -> (n: usize)
    ensures
        n == jpeg_segments(*jpeg).len(),
{
    jpeg.segments().len()
}

/// Builds a comment segment with `JpegSegment::new_with_contents` and calls
/// `Vec::insert` on the segments of a `Jpeg`: the new segment stands at
/// `index`, and the segments from there on move up by one.
#[verifier::external_body]
fn insert_comment(jpeg: &mut img_parts::jpeg::Jpeg, index: usize, contents: &[u8])
    requires
        index <= jpeg_segments(*old(jpeg)).len(),
    ensures
        jpeg_segments(*final(jpeg)) == jpeg_segments(*old(jpeg)).insert(
            index as int,
            comment_segment(contents@),
        ),
{
    let segment = img_parts::jpeg::JpegSegment::new_with_contents(
        img_parts::jpeg::markers::COM,
        contents.to_vec().into(),
    );
    jpeg.segments_mut().insert(index, segment);
}

/// Calls `Vec::remove` on the segments of a `Jpeg` and hands out the marker
/// and the contents of the segment taken out; the segments behind it move
/// down by one.
#[verifier::external_body]
fn remove_segment(jpeg: &mut img_parts::jpeg::Jpeg, index: usize) -> (removed: (u8, Vec<u8>))
    requires
        index < jpeg_segments(*old(jpeg)).len(),
    ensures
        jpeg_segments(*final(jpeg)) == jpeg_segments(*old(jpeg)).remove(index as int),
        removed.0 == jpeg_segments(*old(jpeg))[index as int].0,
        removed.1@ == jpeg_segments(*old(jpeg))[index as int].1,
{
    let segment = jpeg.segments_mut().remove(index);
    (segment.marker(), segment.contents().to_vec())
}

/// Calls `Jpeg::encoder` and `ImageEncoder::bytes`. The encoder puts each
/// segment's length into 16 bits, so every segment must fit that field.
#[verifier::external_body]
fn write_jpeg(jpeg: img_parts::jpeg::Jpeg) -> (bytes: Vec<u8>)
    requires
        fits_length_field(jpeg_segments(jpeg)),
    ensures
        bytes@ == written_jpeg(jpeg_segments(jpeg)),
{
    jpeg.encoder().bytes().to_vec()
}

/// The encoded file: `Dependency` where the carrier does not parse,
/// `Invalid` where the insertion index lies past the end of its segments or
/// the framed payload could not be addressed, else the file written for
/// the segments with the payload's segments put in.
pub open spec fn jpeg_encoding(start: usize, carrier: Seq<u8>, payload: Seq<u8>) -> Result<
    Seq<u8>,
    ErrorKind,
> {
    match parsed_segments(carrier) {
        None => Err(ErrorKind::Dependency),
        Some(segments) => if !can_insert(segments, start as int, payload.len()) {
            Err(ErrorKind::Invalid)
        } else {
            Ok(written_jpeg(segments_encoding(segments, start as int, payload)))
        },
    }
}

/// The carrier and the payload: `Dependency` where the file does not
/// parse, `NotEncoded` where its segments from `start` on are not framed as
/// payload, else the file written for the other segments, and the payload.
pub open spec fn jpeg_decoding(start: usize, encoded: Seq<u8>) -> Result<
    (Seq<u8>, Seq<u8>),
    ErrorKind,
> {
    match parsed_segments(encoded) {
        None => Err(ErrorKind::Dependency),
        Some(segments) => match segments_decoding(segments, start as int) {
            None => Err(ErrorKind::NotEncoded),
            Some(pair) => Ok((written_jpeg(pair.0), pair.1)),
        },
    }
}

/// Whether a payload of `payload_len` bytes can be put in at `start`: the
/// index is not past the end of the segments, and the framed payload can
/// be addressed.
pub open spec fn can_insert(segments: Seq<(u8, Seq<u8>, Seq<u8>)>, start: int, payload_len: nat) -> bool {
    0 <= start <= segments.len() && payload_len + 8 <= usize::MAX
}

/// Puts the segments that carry `payload` into `jpeg` at `start`. Where
/// that cannot be done the result is `DataInvalid`, and `jpeg` is left as
/// it is.
pub fn insert_payload(jpeg: &mut img_parts::jpeg::Jpeg, start: usize, payload: &[u8]) -> (r: Result<
    (),
    CodecError,
>)
    ensures
        match r {
            Ok(_) => can_insert(jpeg_segments(*old(jpeg)), start as int, payload@.len())
                && jpeg_segments(*final(jpeg)) == segments_encoding(
                jpeg_segments(*old(jpeg)),
                start as int,
                payload@,
            ),
            Err(e) => !can_insert(jpeg_segments(*old(jpeg)), start as int, payload@.len())
                && e.kind_spec() == ErrorKind::Invalid && jpeg_segments(*final(jpeg))
                == jpeg_segments(*old(jpeg)),
        },
        fits_length_field(jpeg_segments(*old(jpeg))) ==> fits_length_field(
            jpeg_segments(*final(jpeg)),
        ),
{
    if start > count_segments(jpeg) {
        return Err(
            CodecError::DataInvalid("Insertion index is past the carrier's segments".to_string()),
        );
    }
    if payload.len() > usize::MAX - COUNT_FIELD {
        return Err(CodecError::DataInvalid("Payload Too Big for Carrier".to_string()));
    }
    proof {
        if fits_length_field(jpeg_segments(*jpeg)) {
            lemma_encoding_fits(jpeg_segments(*jpeg), start as int, payload@);
        }
    }
    let ghost segments = jpeg_segments(*jpeg);
    let total: usize = payload.len() + COUNT_FIELD;
    let count: usize = if total % CHUNK_SIZE == 0 {
        total / CHUNK_SIZE
    } else {
        total / CHUNK_SIZE + 1
    };
    assert(count == segment_count(payload@.len()));
    let mut buffer = u64_to_le(count as u64);
    buffer.extend_from_slice(payload);
    proof {
        lemma_le_bytes_len(count as nat, 8);
        assert(buffer@ =~= framed(payload@));
    }
    let mut i: usize = 0;
    while i < count
        invariant
            i <= count,
            count == segment_count(payload@.len()),
            count == (buffer@.len() + 65532) / 65533,
            buffer@ == framed(payload@),
            buffer@.len() == payload@.len() + 8,
            buffer@.len() <= usize::MAX,
            start <= segments.len(),
            segments == jpeg_segments(*old(jpeg)),
            jpeg_segments(*jpeg) == segments.subrange(0, start as int) + payload_segments(
                payload@,
            ).subrange(0, i as int) + segments.subrange(start as int, segments.len() as int),
        decreases count - i,
    {
        proof {
            lemma_chunk_len(buffer@.len(), i as int);
        }
        let low: usize = i * CHUNK_SIZE;
        let high: usize = if buffer.len() - low > CHUNK_SIZE {
            low + CHUNK_SIZE
        } else {
            buffer.len()
        };
        let held: usize = count_segments(jpeg);
        assert(start + i <= held);
        let piece = vstd::slice::slice_subrange(buffer.as_slice(), low, high);
        assert(piece@ == chunk(buffer@, i as int));
        insert_comment(jpeg, start + i, piece);
        assert(jpeg_segments(*jpeg) =~= segments.subrange(0, start as int) + payload_segments(
            payload@,
        ).subrange(0, i + 1) + segments.subrange(start as int, segments.len() as int));
        i += 1;
    }
    assert(payload_segments(payload@).subrange(0, count as int) =~= payload_segments(payload@));
    Ok(())
}

/// Takes the segments that carry a payload out of `jpeg`, from `start` on,
/// and returns the payload. Where the segments are not framed as payload
/// the result is `DataNotEncoded`, and `jpeg` is left without the segments
/// that were looked at.
pub fn remove_payload(jpeg: &mut img_parts::jpeg::Jpeg, start: usize) -> (r: Result<
    Vec<u8>,
    CodecError,
>)
    ensures
        match r {
            Ok(payload) => segments_decoding(jpeg_segments(*old(jpeg)), start as int) == Some(
                (jpeg_segments(*final(jpeg)), payload@),
            ),
            Err(e) => e.kind_spec() == ErrorKind::NotEncoded && segments_decoding(
                jpeg_segments(*old(jpeg)),
                start as int,
            ) is None,
        },
        fits_length_field(jpeg_segments(*old(jpeg))) ==> fits_length_field(
            jpeg_segments(*final(jpeg)),
        ),
{
    let ghost segments = jpeg_segments(*jpeg);
    let len: usize = count_segments(jpeg);
    if start >= len {
        return Err(CodecError::DataNotEncoded);
    }
    let (marker, first) = remove_segment(jpeg, start);
    if marker != COMMENT_MARKER || first.len() < COUNT_FIELD {
        return Err(CodecError::DataNotEncoded);
    }
    let declared: u64 = u64_from_le(vstd::slice::slice_subrange(first.as_slice(), 0, COUNT_FIELD));
    if declared < 1 || declared > (len - start) as u64 {
        return Err(CodecError::DataNotEncoded);
    }
    let count: usize = declared as usize;
    assert(count == declared_count(segments, start as int));
    let mut payload: Vec<u8> = Vec::new();
    payload.extend_from_slice(vstd::slice::slice_subrange(first.as_slice(), COUNT_FIELD, first.len()));
    proof {
        assert(joined_contents(segments, start as int, start as int) =~= Seq::<u8>::empty());
        assert(joined_contents(segments, start as int, start + 1) =~= segments[start as int].1);
        assert(payload@ =~= joined_contents(segments, start as int, start + 1).subrange(
            8,
            first@.len() as int,
        ));
        assert(jpeg_segments(*jpeg) =~= segments.subrange(0, start as int) + segments.subrange(
            start + 1,
            len as int,
        ));
    }
    let mut taken: usize = 1;
    while taken < count
        invariant
            1 <= taken <= count,
            start + count <= len,
            len == segments.len(),
            segments == jpeg_segments(*old(jpeg)),
            segments[start as int].0 == COMMENT_MARKER,
            segments[start as int].1.len() >= 8,
            count == declared_count(segments, start as int),
            forall|i: int| start <= i < start + taken ==> (#[trigger] segments[i]).0
                == COMMENT_MARKER,
            jpeg_segments(*jpeg) == segments.subrange(0, start as int) + segments.subrange(
                start + taken,
                len as int,
            ),
            joined_contents(segments, start as int, start + taken).len() >= 8,
            payload@ == joined_contents(segments, start as int, start + taken).subrange(
                8,
                joined_contents(segments, start as int, start + taken).len() as int,
            ),
        decreases count - taken,
    {
        let ghost before = jpeg_segments(*jpeg);
        assert(before[start as int] == segments[start + taken]);
        let (marker, contents) = remove_segment(jpeg, start);
        if marker != COMMENT_MARKER {
            assert(segments[start + taken].0 != COMMENT_MARKER);
            return Err(CodecError::DataNotEncoded);
        }
        payload.extend_from_slice(contents.as_slice());
        proof {
            let joined = joined_contents(segments, start as int, start + taken);
            let next = joined_contents(segments, start as int, start + taken + 1);
            assert(next == joined + segments[start + taken].1);
            assert(payload@ =~= next.subrange(8, next.len() as int));
            assert(jpeg_segments(*jpeg) =~= segments.subrange(0, start as int)
                + segments.subrange(start + taken + 1, len as int));
        }
        taken += 1;
    }
    proof {
        let rest = jpeg_segments(*jpeg);
        if fits_length_field(segments) {
            assert forall|i: int| 0 <= i < rest.len() implies (#[trigger] rest[i]).1.len()
                <= 65533 by {
                if i < start {
                    assert(rest[i] == segments[i]);
                } else {
                    assert(rest[i] == segments[i + count]);
                }
            }
        }
    }
    Ok(payload)
}

/// Codec for storing payload data in JPEG comment segments. It can store
/// any amount of data, as long as the number of comment segments can be
/// counted in 64 bits.
#[derive(Clone, Copy, Debug, PartialEq, Eq, Structural)]
pub struct JpegSegmentCodec {
    /// Index of the segment to insert comments at.
    pub start_index: usize,
}

impl Default for JpegSegmentCodec {
    fn default() -> (codec: Self)
        ensures
            codec.start_index == 3,
    {
        JpegSegmentCodec { start_index: 3 }
    }
}

impl Codec for JpegSegmentCodec {
    open spec fn encoding(&self, carrier: Seq<u8>, payload: Seq<u8>) -> Result<Seq<u8>, ErrorKind> {
        jpeg_encoding(self.start_index, carrier, payload)
    }

    open spec fn decoding(&self, encoded: Seq<u8>) -> Result<(Seq<u8>, Seq<u8>), ErrorKind> {
        jpeg_decoding(self.start_index, encoded)
    }

    fn encode(&self, carrier: &[u8], payload: &[u8]) -> (r: Result<Vec<u8>, CodecError>) {
        let mut jpeg = match parse_jpeg(carrier) {
            Ok(jpeg) => jpeg,
            Err(message) => {
                return Err(CodecError::DependencyError(message));
            },
        };
        match insert_payload(&mut jpeg, self.start_index, payload) {
            Ok(_) => Ok(write_jpeg(jpeg)),
            Err(e) => Err(e),
        }
    }

    fn decode(&self, encoded: &[u8]) -> (r: Result<(Vec<u8>, Vec<u8>), CodecError>) {
        let mut jpeg = match parse_jpeg(encoded) {
            Ok(jpeg) => jpeg,
            Err(message) => {
                return Err(CodecError::DependencyError(message));
            },
        };
        match remove_payload(&mut jpeg, self.start_index) {
            Ok(payload) => Ok((write_jpeg(jpeg), payload)),
            Err(e) => Err(e),
        }
    }
}

/// Decoding an encoded file gives back the carrier and the payload exactly,
/// for every carrier that the writer would write as it stands, whenever the
/// written file reads back as the segments that were written.
pub proof fn lemma_jpeg_round_trip(codec: JpegSegmentCodec, carrier: Seq<u8>, payload: Seq<u8>)
    requires
        parsed_segments(carrier) is Some,
        codec.start_index <= parsed_segments(carrier)->Some_0.len(),
        payload.len() + 8 <= usize::MAX,
        written_jpeg(parsed_segments(carrier)->Some_0) == carrier,
        parsed_segments(codec.encoding(carrier, payload)->Ok_0) == Some(
            segments_encoding(
                parsed_segments(carrier)->Some_0,
                codec.start_index as int,
                payload,
            ),
        ),
    ensures
        codec.encoding(carrier, payload) is Ok,
        codec.decoding(codec.encoding(carrier, payload)->Ok_0) == Ok::<
            (Seq<u8>, Seq<u8>),
            ErrorKind,
        >((carrier, payload)),
{
    lemma_segments_round_trip(
        parsed_segments(carrier)->Some_0,
        codec.start_index as int,
        payload,
    );
}

} // verus!
