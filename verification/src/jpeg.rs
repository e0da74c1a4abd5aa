//! Codecs for carriers in JPEG format.

pub mod chunks;
pub mod segment;
