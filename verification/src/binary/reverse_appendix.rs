//! A length-framed, order-reversed payload appended past the end of an
//! opaque carrier.

use vstd::prelude::*;
use crate::codec::{Codec, CodecError, ErrorKind};
use crate::framing::{le_bytes, le_value, lemma_le_bytes_len, lemma_le_bytes_of_value,
    lemma_le_value_of_bytes, lemma_pow256_values, u64_from_le, u64_to_le};

verus! {

/// Width in bytes of the trailer's length field.
pub const LENGTH_FIELD: usize = 8;

/// The trailer before reversal: its own length, then the payload.
pub open spec fn trailer(payload: Seq<u8>) -> Seq<u8> {
    le_bytes((payload.len() + 8) as nat, 8) + payload
}

/// The encoded buffer: the carrier, then the reversed trailer. Encoding
/// fails only when the encoded buffer could not be addressed.
pub open spec fn appendix_encoding(carrier: Seq<u8>, payload: Seq<u8>) -> Result<
    Seq<u8>,
    ErrorKind,
> {
    if carrier.len() + payload.len() + 8 > usize::MAX {
        Err(ErrorKind::Invalid)
    } else {
        Ok(carrier + trailer(payload).reverse())
    }
}

/// The trailer length that the last eight bytes of `encoded` declare.
pub open spec fn declared_trailer_len(encoded: Seq<u8>) -> nat
    recommends
        encoded.len() >= 8,
{
    le_value(encoded.subrange(encoded.len() - 8, encoded.len() as int).reverse())
}

/// Whether `encoded` ends in a trailer that this codec could have written.
pub open spec fn has_trailer(encoded: Seq<u8>) -> bool {
    &&& encoded.len() >= 8
    &&& 8 <= declared_trailer_len(encoded) <= encoded.len()
}

/// The carrier and payload held by `encoded`, or `NotEncoded` when the
/// buffer does not end in a valid trailer.
pub open spec fn appendix_decoding(encoded: Seq<u8>) -> Result<(Seq<u8>, Seq<u8>), ErrorKind> {
    if has_trailer(encoded) {
        let n = encoded.len() as int;
        let t = declared_trailer_len(encoded) as int;
        Ok((encoded.subrange(0, n - t), encoded.subrange(n - t, n - 8).reverse()))
    } else {
        Err(ErrorKind::NotEncoded)
    }
}

/// Decoding an encoded buffer gives back the carrier and the payload exactly.
pub proof fn lemma_appendix_round_trip(carrier: Seq<u8>, payload: Seq<u8>)
    requires
        carrier.len() + payload.len() + 8 <= usize::MAX,
    ensures
        appendix_decoding(appendix_encoding(carrier, payload)->Ok_0) == Ok::<
            (Seq<u8>, Seq<u8>),
            ErrorKind,
        >((carrier, payload)),
{
    let t = (payload.len() + 8) as nat;
    let header = le_bytes(t, 8);
    let encoded = carrier + trailer(payload).reverse();
    let n = encoded.len() as int;
    lemma_le_bytes_len(t, 8);
    lemma_pow256_values();
    lemma_le_value_of_bytes(t, 8);
    assert(encoded.subrange(n - 8, n).reverse() =~= header);
    assert(encoded.subrange(0, n - t) =~= carrier);
    assert(encoded.subrange(n - t, n - 8).reverse() =~= payload);
}

/// Whatever decoding accepts is exactly what encoding its result writes:
/// no buffer yields a payload unless it is the encoding of that payload.
pub proof fn lemma_appendix_decoding_is_inverse(encoded: Seq<u8>)
    requires
        encoded.len() <= usize::MAX,
        appendix_decoding(encoded) is Ok,
    ensures
        appendix_encoding(appendix_decoding(encoded)->Ok_0.0, appendix_decoding(encoded)->Ok_0.1)
            == Ok::<Seq<u8>, ErrorKind>(encoded),
{
    let n = encoded.len() as int;
    let field = encoded.subrange(n - 8, n).reverse();
    let t = declared_trailer_len(encoded);
    let carrier = encoded.subrange(0, n - t);
    let payload = encoded.subrange(n - t, n - 8).reverse();
    lemma_le_bytes_of_value(field);
    assert(le_bytes(t, 8) == field);
    assert(carrier + trailer(payload).reverse() =~= encoded);
}

/// A buffer shorter than the length field is never taken for an encoding.
pub proof fn lemma_appendix_rejects_short(encoded: Seq<u8>)
    requires
        encoded.len() < 8,
    ensures
        appendix_decoding(encoded) == Err::<(Seq<u8>, Seq<u8>), ErrorKind>(ErrorKind::NotEncoded),
{
}

/// Appends `bytes` to `out` in reverse order.
pub fn push_reversed(out: &mut Vec<u8>, bytes: &[u8])
    ensures
        final(out)@ == old(out)@ + bytes@.reverse(),
{
    let n: usize = bytes.len();
    let mut i: usize = n;
    let ghost start = out@;
    assert(out@ =~= start + bytes@.reverse().subrange(0, 0));
    while i > 0
        invariant
            i <= n,
            n == bytes@.len(),
            out@ == start + bytes@.reverse().subrange(0, n - i),
        decreases i,
    {
        i -= 1;
        out.push(bytes[i]);
        assert(out@ =~= start + bytes@.reverse().subrange(0, n - i));
    }
    assert(bytes@.reverse().subrange(0, n as int) =~= bytes@.reverse());
}

/// Reverses payload data and writes it, back to front, past the end of the
/// carrier. A length field is put in front of the payload before the
/// reversal, so that a decoder reading from the end finds it first.
#[derive(Clone, Copy, Debug)]
pub struct BinaryReverseAppendixCodec;

impl Codec for BinaryReverseAppendixCodec {
    open spec fn encoding(&self, carrier: Seq<u8>, payload: Seq<u8>) -> Result<Seq<u8>, ErrorKind> {
        appendix_encoding(carrier, payload)
    }

    open spec fn decoding(&self, encoded: Seq<u8>) -> Result<(Seq<u8>, Seq<u8>), ErrorKind> {
        appendix_decoding(encoded)
    }

    fn encode(&self, carrier: &[u8], payload: &[u8]) -> (r: Result<Vec<u8>, CodecError>) {
        if payload.len() > usize::MAX - LENGTH_FIELD || carrier.len() > usize::MAX - LENGTH_FIELD
            - payload.len() {
            return Err(CodecError::DataInvalid("Payload Too Big for Carrier".to_string()));
        }
        let trailer_len: u64 = (payload.len() + LENGTH_FIELD) as u64;
        let header = u64_to_le(trailer_len);
        let mut encoded: Vec<u8> = Vec::new();
        encoded.extend_from_slice(carrier);
        push_reversed(&mut encoded, payload);
        push_reversed(&mut encoded, header.as_slice());
        proof {
            assert(trailer(payload@).reverse() =~= payload@.reverse() + header@.reverse()) by {
                lemma_le_bytes_len(trailer_len as nat, 8);
            }
            assert(encoded@ =~= carrier@ + trailer(payload@).reverse());
        }
        Ok(encoded)
    }

    fn decode(&self, encoded: &[u8]) -> (r: Result<(Vec<u8>, Vec<u8>), CodecError>) {
        let n: usize = encoded.len();
        if n < LENGTH_FIELD {
            return Err(CodecError::DataNotEncoded);
        }
        let mut field: Vec<u8> = Vec::new();
        push_reversed(&mut field, vstd::slice::slice_subrange(encoded, n - LENGTH_FIELD, n));
        assert(field@ =~= encoded@.subrange(n - 8, n as int).reverse());
        let declared: u64 = u64_from_le(field.as_slice());
        if declared < 8 || declared > n as u64 {
            return Err(CodecError::DataNotEncoded);
        }
        let trailer_len: usize = declared as usize;
        let carrier_len: usize = n - trailer_len;
        let mut carrier: Vec<u8> = Vec::new();
        carrier.extend_from_slice(vstd::slice::slice_subrange(encoded, 0, carrier_len));
        let mut payload: Vec<u8> = Vec::new();
        push_reversed(
            &mut payload,
            vstd::slice::slice_subrange(encoded, carrier_len, n - LENGTH_FIELD),
        );
        assert(carrier@ =~= encoded@.subrange(0, n - trailer_len));
        assert(payload@ =~= encoded@.subrange(n - trailer_len, n - 8).reverse());
        Ok((carrier, payload))
    }
}

} // verus!
