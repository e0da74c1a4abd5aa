//! The contract shared by every codec, and the errors a codec reports.

use vstd::prelude::*;
use vstd::string::StringExecFns;

verus! {

/// Errors produced by a codec.
#[derive(Debug)]
pub enum CodecError {
    /// The data carries no payload written by this codec.
    DataNotEncoded,
    /// The data is well formed but cannot be used; the message says why.
    DataInvalid(String),
    /// A format parser or writer rejected the data; the message is its own.
    DependencyError(String),
}

/// What went wrong, without the message.
#[derive(Clone, Copy, Debug, PartialEq, Eq, Structural)]
pub enum ErrorKind {
    /// Framing or marker validation failed.
    NotEncoded,
    /// Unsupported structure, or a payload beyond the carrier's capacity.
    Invalid,
    /// The underlying format library rejected the buffer.
    Dependency,
}

impl CodecError {
    /// The kind of this error.
    pub open spec fn kind_spec(self) -> ErrorKind {
        match self {
            CodecError::DataNotEncoded => ErrorKind::NotEncoded,
            CodecError::DataInvalid(_) => ErrorKind::Invalid,
            CodecError::DependencyError(_) => ErrorKind::Dependency,
        }
    }

    /// The kind of this error.
    pub fn kind(&self) -> (k: ErrorKind)
        ensures
            k == self.kind_spec(),
    {
        match self {
            CodecError::DataNotEncoded => ErrorKind::NotEncoded,
            CodecError::DataInvalid(_) => ErrorKind::Invalid,
            CodecError::DependencyError(_) => ErrorKind::Dependency,
        }
    }

    /// The message carried by this error; empty for `DataNotEncoded`.
    pub open spec fn message_spec(self) -> Seq<char> {
        match self {
            CodecError::DataNotEncoded => Seq::empty(),
            CodecError::DataInvalid(m) => m@,
            CodecError::DependencyError(m) => m@,
        }
    }

    /// The text that describes this error to a reader.
    pub open spec fn description_spec(self) -> Seq<char> {
        match self {
            CodecError::DataNotEncoded => "Data was not encoded with this codec"@,
            CodecError::DataInvalid(m) => "Provided data invalid: "@ + m@,
            CodecError::DependencyError(m) => "Error occured in dependency: "@ + m@,
        }
    }

    /// The text that describes this error to a reader: what kind of error
    /// it is, then its message.
    pub fn description(&self) -> (text: String)
        ensures
            text@ == self.description_spec(),
    {
        match self {
            CodecError::DataNotEncoded => String::from_str("Data was not encoded with this codec"),
            CodecError::DataInvalid(m) => String::from_str("Provided data invalid: ").concat(
                m.as_str(),
            ),
            CodecError::DependencyError(m) => String::from_str(
                "Error occured in dependency: ",
            ).concat(m.as_str()),
        }
    }
}

/// The mathematical content of an `encode` result.
pub open spec fn encoded_view(r: Result<Vec<u8>, CodecError>) -> Result<Seq<u8>, ErrorKind> {
    match r {
        Ok(bytes) => Ok(bytes@),
        Err(e) => Err(e.kind_spec()),
    }
}

/// The mathematical content of a `decode` result: carrier first, payload second.
pub open spec fn decoded_view(r: Result<(Vec<u8>, Vec<u8>), CodecError>) -> Result<
    (Seq<u8>, Seq<u8>),
    ErrorKind,
> {
    match r {
        Ok(pair) => Ok((pair.0@, pair.1@)),
        Err(e) => Err(e.kind_spec()),
    }
}

/// Codecs conceal payload data inside the data of a carrier.
///
/// Every codec is a pure function of its arguments, so each implementation
/// fixes two mathematical functions, `encoding` and `decoding`, and its
/// executable methods compute exactly those.
pub trait Codec {
    /// What `encode` returns for a carrier and a payload.
    spec fn encoding(&self, carrier: Seq<u8>, payload: Seq<u8>) -> Result<Seq<u8>, ErrorKind>;

    /// What `decode` returns for an encoded buffer: the carrier and the payload.
    spec fn decoding(&self, encoded: Seq<u8>) -> Result<(Seq<u8>, Seq<u8>), ErrorKind>;

    /// Embeds payload data inside carrier, returning the result.
    fn encode(&self, carrier: &[u8], payload: &[u8]) -> (r: Result<Vec<u8>, CodecError>)
        ensures
            encoded_view(r) == self.encoding(carrier@, payload@),
    ;

    /// Extracts payload data from an encoded carrier, returning the carrier
    /// with the data removed and the payload data.
    fn decode(&self, encoded: &[u8]) -> (r: Result<(Vec<u8>, Vec<u8>), CodecError>)
        ensures
            decoded_view(r) == self.decoding(encoded@),
    ;
}

} // verus!
