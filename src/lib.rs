//! LEB128 variable-length integers, unsigned and signed, of widths 8, 16, 32
//! and 64 bits: a buffered profile over byte slices and vectors, and a
//! streaming profile over byte sinks and sources.
use vstd::prelude::*;

pub mod buffered;
pub mod convert;
pub mod laws;
pub mod model;
pub mod stream;

pub use buffered::{decode_signed, decode_unsigned, encode_signed, encode_unsigned, DecodeError};
pub use convert::{FromLeb128i, FromLeb128u, ToLeb128i, ToLeb128u};
pub use stream::{
    read_frame, read_signed, read_unsigned, signed_from_frame, unsigned_from_frame, write_signed,
    write_unsigned, ByteSink, ByteSource, FromLeb128Error,
};

verus! {

} // verus!
