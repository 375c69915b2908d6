//! Bit-level reader for binary streams: fixed-width, signed, truncated-binary,
//! variable-length and little-endian bit-field primitives, each with a proved
//! contract over the bit content of the underlying byte stream.

pub mod bits;
pub mod reader;
pub mod laws;
