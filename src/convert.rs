//! The integer-facing API: each integer type writes itself to a sink and
//! reads itself from a source.
use crate::laws::{length_bound_signed, length_bound_unsigned};
use crate::model::{enc_i, enc_u, lemma_width_facts, max_len, scan_len, stream_i, stream_u, Decoded};
use crate::stream::{
    emitted, read_signed, read_unsigned, write_signed, write_unsigned, ByteSink, ByteSource,
    FromLeb128Error,
};
use vstd::prelude::*;

verus! {

/// Unsigned LEB128 encoding to a byte sink.
pub trait ToLeb128u {
    /// The value being encoded.
    spec fn encoded_value(&self) -> nat;

    /// The bit width of the type.
    spec fn encoded_width() -> nat;

    /// Writes the encoding byte by byte; returns how many bytes went out.
    fn to_leb128u<W: ByteSink>(&self, writer: &mut W) -> (r: Result<usize, std::io::Error>)
        ensures
            emitted(old(writer).written(), final(writer).written(), enc_u(self.encoded_value()), r),
            old(writer).reliable() ==> r is Ok,
            r matches Ok(n) ==> 1 <= n <= max_len(Self::encoded_width()),
    ;
}

/// Signed LEB128 encoding to a byte sink.
pub trait ToLeb128i {
    /// The value being encoded.
    spec fn encoded_value(&self) -> int;

    /// The bit width of the type.
    spec fn encoded_width() -> nat;

    /// Writes the encoding byte by byte; returns how many bytes went out.
    fn to_leb128i<W: ByteSink>(&self, writer: &mut W) -> (r: Result<usize, std::io::Error>)
        ensures
            emitted(old(writer).written(), final(writer).written(), enc_i(self.encoded_value()), r),
            old(writer).reliable() ==> r is Ok,
            r matches Ok(n) ==> 1 <= n <= max_len(Self::encoded_width()),
    ;
}

/// Strict unsigned LEB128 decoding from a byte source.
pub trait FromLeb128u: Sized {
    /// The value a decoded integer stands for.
    spec fn decoded_value(&self) -> nat;

    /// The bit width of the type.
    spec fn decoded_width() -> nat;

    /// Reads one byte at a time up to the end of the value and accepts only
    /// the canonical encoding of a value of the type.
    fn from_leb128u<R: ByteSource>(reader: &mut R) -> (r: Result<Self, FromLeb128Error>)
        ensures
            final(reader).pending() == old(reader).pending().skip(
                scan_len(old(reader).pending(), max_len(Self::decoded_width())) as int,
            ),
            match r {
                Ok(v) => stream_u(old(reader).pending(), Self::decoded_width()) == Decoded::Value(
                    v.decoded_value() as int,
                ),
                Err(FromLeb128Error::Malformed) => stream_u(
                    old(reader).pending(),
                    Self::decoded_width(),
                ) == Decoded::Malformed,
                Err(FromLeb128Error::Io(_)) => stream_u(old(reader).pending(), Self::decoded_width())
                    == Decoded::Exhausted,
            },
    ;
}

/// Strict signed LEB128 decoding from a byte source.
pub trait FromLeb128i: Sized {
    /// The value a decoded integer stands for.
    spec fn decoded_value(&self) -> int;

    /// The bit width of the type.
    spec fn decoded_width() -> nat;

    /// Reads one byte at a time up to the end of the value and accepts only
    /// the canonical encoding of a value of the type.
    fn from_leb128i<R: ByteSource>(reader: &mut R) -> (r: Result<Self, FromLeb128Error>)
        ensures
            final(reader).pending() == old(reader).pending().skip(
                scan_len(old(reader).pending(), max_len(Self::decoded_width())) as int,
            ),
            match r {
                Ok(v) => stream_i(old(reader).pending(), Self::decoded_width()) == Decoded::Value(
                    v.decoded_value(),
                ),
                Err(FromLeb128Error::Malformed) => stream_i(
                    old(reader).pending(),
                    Self::decoded_width(),
                ) == Decoded::Malformed,
                Err(FromLeb128Error::Io(_)) => stream_i(old(reader).pending(), Self::decoded_width())
                    == Decoded::Exhausted,
            },
    ;
}

impl ToLeb128u for u8 {
    open spec fn encoded_value(&self) -> nat {
        *self as nat
    }

    open spec fn encoded_width() -> nat {
        8
    }

    fn to_leb128u<W: ByteSink>(&self, writer: &mut W) -> (r: Result<usize, std::io::Error>) {
        proof {
            lemma_width_facts(8);
            length_bound_unsigned(*self as nat, 8);
        }
        write_unsigned(*self as u64, writer)
    }
}

impl FromLeb128u for u8 {
    open spec fn decoded_value(&self) -> nat {
        *self as nat
    }

    open spec fn decoded_width() -> nat {
        8
    }

    fn from_leb128u<R: ByteSource>(reader: &mut R) -> (r: Result<u8, FromLeb128Error>) {
        proof {
            lemma_width_facts(8);
        }
        match read_unsigned(reader, 8) {
            Ok(v) => Ok(v as u8),
            Err(e) => Err(e),
        }
    }
}

impl ToLeb128u for u16 {
    open spec fn encoded_value(&self) -> nat {
        *self as nat
    }

    open spec fn encoded_width() -> nat {
        16
    }

    fn to_leb128u<W: ByteSink>(&self, writer: &mut W) -> (r: Result<usize, std::io::Error>) {
        proof {
            lemma_width_facts(16);
            length_bound_unsigned(*self as nat, 16);
        }
        write_unsigned(*self as u64, writer)
    }
}

impl FromLeb128u for u16 {
    open spec fn decoded_value(&self) -> nat {
        *self as nat
    }

    open spec fn decoded_width() -> nat {
        16
    }

    fn from_leb128u<R: ByteSource>(reader: &mut R) -> (r: Result<u16, FromLeb128Error>) {
        proof {
            lemma_width_facts(16);
        }
        match read_unsigned(reader, 16) {
            Ok(v) => Ok(v as u16),
            Err(e) => Err(e),
        }
    }
}

impl ToLeb128u for u32 {
    open spec fn encoded_value(&self) -> nat {
        *self as nat
    }

    open spec fn encoded_width() -> nat {
        32
    }

    fn to_leb128u<W: ByteSink>(&self, writer: &mut W) -> (r: Result<usize, std::io::Error>) {
        proof {
            lemma_width_facts(32);
            length_bound_unsigned(*self as nat, 32);
        }
        write_unsigned(*self as u64, writer)
    }
}

impl FromLeb128u for u32 {
    open spec fn decoded_value(&self) -> nat {
        *self as nat
    }

    open spec fn decoded_width() -> nat {
        32
    }

    fn from_leb128u<R: ByteSource>(reader: &mut R) -> (r: Result<u32, FromLeb128Error>) {
        proof {
            lemma_width_facts(32);
        }
        match read_unsigned(reader, 32) {
            Ok(v) => Ok(v as u32),
            Err(e) => Err(e),
        }
    }
}

impl ToLeb128u for u64 {
    open spec fn encoded_value(&self) -> nat {
        *self as nat
    }

    open spec fn encoded_width() -> nat {
        64
    }

    fn to_leb128u<W: ByteSink>(&self, writer: &mut W) -> (r: Result<usize, std::io::Error>) {
        proof {
            lemma_width_facts(64);
            length_bound_unsigned(*self as nat, 64);
        }
        write_unsigned(*self as u64, writer)
    }
}

impl FromLeb128u for u64 {
    open spec fn decoded_value(&self) -> nat {
        *self as nat
    }

    open spec fn decoded_width() -> nat {
        64
    }

    fn from_leb128u<R: ByteSource>(reader: &mut R) -> (r: Result<u64, FromLeb128Error>) {
        proof {
            lemma_width_facts(64);
        }
        match read_unsigned(reader, 64) {
            Ok(v) => Ok(v as u64),
            Err(e) => Err(e),
        }
    }
}

impl ToLeb128i for i8 {
    open spec fn encoded_value(&self) -> int {
        *self as int
    }

    open spec fn encoded_width() -> nat {
        8
    }

    fn to_leb128i<W: ByteSink>(&self, writer: &mut W) -> (r: Result<usize, std::io::Error>) {
        proof {
            lemma_width_facts(8);
            length_bound_signed(*self as int, 8);
        }
        write_signed(*self as i64, writer)
    }
}

impl FromLeb128i for i8 {
    open spec fn decoded_value(&self) -> int {
        *self as int
    }

    open spec fn decoded_width() -> nat {
        8
    }

    fn from_leb128i<R: ByteSource>(reader: &mut R) -> (r: Result<i8, FromLeb128Error>) {
        proof {
            lemma_width_facts(8);
        }
        match read_signed(reader, 8) {
            Ok(v) => Ok(v as i8),
            Err(e) => Err(e),
        }
    }
}

impl ToLeb128i for i16 {
    open spec fn encoded_value(&self) -> int {
        *self as int
    }

    open spec fn encoded_width() -> nat {
        16
    }

    fn to_leb128i<W: ByteSink>(&self, writer: &mut W) -> (r: Result<usize, std::io::Error>) {
        proof {
            lemma_width_facts(16);
            length_bound_signed(*self as int, 16);
        }
        write_signed(*self as i64, writer)
    }
}

impl FromLeb128i for i16 {
    open spec fn decoded_value(&self) -> int {
        *self as int
    }

    open spec fn decoded_width() -> nat {
        16
    }

    fn from_leb128i<R: ByteSource>(reader: &mut R) -> (r: Result<i16, FromLeb128Error>) {
        proof {
            lemma_width_facts(16);
        }
        match read_signed(reader, 16) {
            Ok(v) => Ok(v as i16),
            Err(e) => Err(e),
        }
    }
}

impl ToLeb128i for i32 {
    open spec fn encoded_value(&self) -> int {
        *self as int
    }

    open spec fn encoded_width() -> nat {
        32
    }

    fn to_leb128i<W: ByteSink>(&self, writer: &mut W) -> (r: Result<usize, std::io::Error>) {
        proof {
            lemma_width_facts(32);
            length_bound_signed(*self as int, 32);
        }
        write_signed(*self as i64, writer)
    }
}

impl FromLeb128i for i32 {
    open spec fn decoded_value(&self) -> int {
        *self as int
    }

    open spec fn decoded_width() -> nat {
        32
    }

    fn from_leb128i<R: ByteSource>(reader: &mut R) -> (r: Result<i32, FromLeb128Error>) {
        proof {
            lemma_width_facts(32);
        }
        match read_signed(reader, 32) {
            Ok(v) => Ok(v as i32),
            Err(e) => Err(e),
        }
    }
}

impl ToLeb128i for i64 {
    open spec fn encoded_value(&self) -> int {
        *self as int
    }

    open spec fn encoded_width() -> nat {
        64
    }

    fn to_leb128i<W: ByteSink>(&self, writer: &mut W) -> (r: Result<usize, std::io::Error>) {
        proof {
            lemma_width_facts(64);
            length_bound_signed(*self as int, 64);
        }
        write_signed(*self as i64, writer)
    }
}

impl FromLeb128i for i64 {
    open spec fn decoded_value(&self) -> int {
        *self as int
    }

    open spec fn decoded_width() -> nat {
        64
    }

    fn from_leb128i<R: ByteSource>(reader: &mut R) -> (r: Result<i64, FromLeb128Error>) {
        proof {
            lemma_width_facts(64);
        }
        match read_signed(reader, 64) {
            Ok(v) => Ok(v as i64),
            Err(e) => Err(e),
        }
    }
}

} // verus!
