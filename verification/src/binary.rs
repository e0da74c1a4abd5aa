//! Codecs for opaque binary carriers.

pub mod reverse_appendix;
