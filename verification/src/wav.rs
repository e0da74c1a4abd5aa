//! Codecs for carriers in WAV format.

pub mod lsb;
pub mod samples;
