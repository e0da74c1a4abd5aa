//! Codecs for carriers in glTF model format.

pub mod extras;
