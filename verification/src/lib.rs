//! Steganography codecs that hide a byte payload inside a carrier file.
//!
//! Every codec implements [`Codec`]: `encode` embeds a payload in a
//! carrier, `decode` takes it out again. The codecs keep no state.

pub mod binary;
pub mod codec;
pub mod framing;
pub mod gltf;
pub mod jpeg;
pub mod lossless;
pub mod wav;

pub use crate::codec::{Codec, CodecError, ErrorKind};
