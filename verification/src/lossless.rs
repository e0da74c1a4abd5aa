//! Codecs for carriers in lossless image formats.

pub mod champleve;
pub mod lsb;
pub mod pixel;
pub mod raster;
