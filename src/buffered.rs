//! The buffered profile: encode into a vector, decode from a slice.
use crate::model::{
    continues, dec_i, enc_i, enc_u, exhausted, frame, is_width, lemma_place_values,
    lemma_raw_push, lemma_width_facts, payload, place, raw, signed_fits,
    unsigned_fits,
};
use crate::stream::{group_sum, read_frame, width_bound, write_signed, write_unsigned};
use vstd::arithmetic::div_mod::{lemma_mod_multiples_vanish, lemma_small_mod};
use vstd::prelude::*;

verus! {

/// Errors of the buffered decoders.
#[derive(Debug, Clone, Copy, PartialEq, Eq)]
pub enum DecodeError {
    /// No byte without the continuation flag came within the groups that a
    /// 128-bit accumulator holds.
    TooLongBytes,
    /// The decoded value lies outside the target type's range.
    RangeOverflow,
    /// The slice ended before a byte without the continuation flag.
    UnexpectedEnd,
}

/// Groups that a 128-bit accumulator takes: shifts 0, 7, ..., 126.
pub const WIDE_GROUPS: usize = 19;

/// `2^128`.
pub open spec fn wide_modulus() -> nat {
    4 * place(18)
}

/// The group sum as a 128-bit accumulator holds it: bits from 128 up are
/// lost.
pub open spec fn wide_u(got: Seq<u8>) -> nat {
    raw(got) % wide_modulus()
}

/// The signed value a 128-bit accumulator holds: sign-extended from bit 6 of
/// the last group when that group lies below bit 128, else the accumulator
/// read as two's complement.
pub open spec fn wide_i(got: Seq<u8>) -> int {
    if got.len() < WIDE_GROUPS {
        dec_i(got)
    } else if wide_u(got) >= 2 * place(18) {
        wide_u(got) - wide_modulus()
    } else {
        wide_u(got) as int
    }
}

/// The permissive buffered decoder, unsigned.
pub open spec fn buffered_u(s: Seq<u8>, bits: nat) -> Result<int, DecodeError> {
    let got = frame(s, WIDE_GROUPS as nat);
    if exhausted(s, WIDE_GROUPS as nat) {
        Err(DecodeError::UnexpectedEnd)
    } else if continues(got.last()) {
        Err(DecodeError::TooLongBytes)
    } else if unsigned_fits(wide_u(got) as int, bits) {
        Ok(wide_u(got) as int)
    } else {
        Err(DecodeError::RangeOverflow)
    }
}

/// The permissive buffered decoder, signed.
pub open spec fn buffered_i(s: Seq<u8>, bits: nat) -> Result<int, DecodeError> {
    let got = frame(s, WIDE_GROUPS as nat);
    if exhausted(s, WIDE_GROUPS as nat) {
        Err(DecodeError::UnexpectedEnd)
    } else if continues(got.last()) {
        Err(DecodeError::TooLongBytes)
    } else if signed_fits(wide_i(got), bits) {
        Ok(wide_i(got))
    } else {
        Err(DecodeError::RangeOverflow)
    }
}

/// The unsigned LEB128 encoding of `value`.
pub fn encode_unsigned(value: u64) -> (r: Vec<u8>)
    ensures
        r@ == enc_u(value as nat),
{
    let mut out: Vec<u8> = Vec::new();
    let _ = write_unsigned(value, &mut out);
    assert(out@ == Seq::<u8>::empty() + enc_u(value as nat));
    out
}

/// The signed LEB128 encoding of `value`.
pub fn encode_signed(value: i64) -> (r: Vec<u8>)
    ensures
        r@ == enc_i(value as int),
{
    let mut out: Vec<u8> = Vec::new();
    let _ = write_signed(value, &mut out);
    assert(out@ == Seq::<u8>::empty() + enc_i(value as int));
    out
}

/// The group sum of a frame of at most `WIDE_GROUPS` bytes, in 128 bits.
fn wide_sum(got: &Vec<u8>) -> (r: u128)
    requires
        1 <= got.len() <= WIDE_GROUPS,
    ensures
        r == wide_u(got@),
{
    proof {
        lemma_place_values();
    }
    let n = got.len();
    if n < WIDE_GROUPS {
        let (acc, scale) = group_sum(got, n);
        proof {
            assert(got@.take(n as int) == got@);
            crate::model::lemma_place_mono(n as nat, 18);
            lemma_small_mod(acc as nat, wide_modulus());
        }
        acc
    } else {
        let (lo, scale) = group_sum(got, 18);
        let b: u8 = got[18];
        let top: u128 = (b & 3) as u128;
        proof {
            assert((b & 3) == (b % 128) % 4) by (bit_vector);
            assert(got@.take(18).push(b) == got@);
            lemma_raw_push(got@.take(18), b);
            let m = place(18) as int;
            let p = payload(b) as int;
            assert(p * m == (p / 4) * (4 * m) + (p % 4) * m) by (nonlinear_arith)
                requires
                    p == 4 * (p / 4) + p % 4,
            ;
            assert(top * scale <= 3 * scale) by (nonlinear_arith)
                requires
                    top <= 3,
            ;
            assert(raw(got@) == lo + p * m);
            assert(raw(got@) == (4 * m) * (p / 4) + (lo + top * scale)) by (nonlinear_arith)
                requires
                    raw(got@) == lo + p * m,
                    p * m == (p / 4) * (4 * m) + (p % 4) * m,
                    top == p % 4,
                    scale == m,
            ;
            lemma_mod_multiples_vanish(p / 4, lo + top * scale, 4 * m);
            lemma_small_mod((lo + top * scale) as nat, wide_modulus());
        }
        lo + top * scale
    }
}

/// Buffered unsigned decode of a value of width `bits` from the front of
/// `bytes`. Redundant groups are accepted as long as the value fits.
pub fn decode_unsigned(bytes: &[u8], bits: u32) -> (r: Result<u64, DecodeError>)
    requires
        is_width(bits as nat),
    ensures
        match r {
            Ok(v) => buffered_u(bytes@, bits as nat) == Ok::<int, DecodeError>(v as int),
            Err(e) => buffered_u(bytes@, bits as nat) == Err::<int, DecodeError>(e),
        },
{
    proof {
        lemma_width_facts(bits as nat);
    }
    let mut src: &[u8] = bytes;
    let got = match read_frame(&mut src, WIDE_GROUPS) {
        Ok(got) => got,
        Err(_) => {
            return Err(DecodeError::UnexpectedEnd);
        },
    };
    proof {
        crate::model::lemma_scan_len_bound(bytes@, WIDE_GROUPS as nat);
    }
    let n = got.len();
    if got[n - 1] >= 128 {
        return Err(DecodeError::TooLongBytes);
    }
    let wide = wide_sum(&got);
    if wide >= width_bound(bits) {
        Err(DecodeError::RangeOverflow)
    } else {
        Ok(wide as u64)
    }
}

/// Buffered signed decode of a value of width `bits` from the front of
/// `bytes`. Redundant groups are accepted as long as the value fits.
pub fn decode_signed(bytes: &[u8], bits: u32) -> (r: Result<i64, DecodeError>)
    requires
        is_width(bits as nat),
    ensures
        match r {
            Ok(v) => buffered_i(bytes@, bits as nat) == Ok::<int, DecodeError>(v as int),
            Err(e) => buffered_i(bytes@, bits as nat) == Err::<int, DecodeError>(e),
        },
{
    proof {
        lemma_place_values();
        lemma_width_facts(bits as nat);
    }
    let mut src: &[u8] = bytes;
    let got = match read_frame(&mut src, WIDE_GROUPS) {
        Ok(got) => got,
        Err(_) => {
            return Err(DecodeError::UnexpectedEnd);
        },
    };
    proof {
        crate::model::lemma_scan_len_bound(bytes@, WIDE_GROUPS as nat);
    }
    let n = got.len();
    let last: u8 = got[n - 1];
    if last >= 128 {
        return Err(DecodeError::TooLongBytes);
    }
    let value: i128 = if n < WIDE_GROUPS {
        let (acc, scale) = group_sum(&got, n);
        proof {
            assert(got@.take(n as int) == got@);
            crate::model::lemma_place_mono(n as nat, 18);
            assert((last & 0x40 != 0) <==> (last % 128 >= 64)) by (bit_vector);
            assert(got@.last() == last);
        }
        if last & 0x40 != 0 {
            acc as i128 - scale as i128
        } else {
            acc as i128
        }
    } else {
        let wide = wide_sum(&got);
        if wide >= 0x8000_0000_0000_0000_0000_0000_0000_0000 {
            (wide - 0x8000_0000_0000_0000_0000_0000_0000_0000) as i128
                - 0x7fff_ffff_ffff_ffff_ffff_ffff_ffff_ffff - 1
        } else {
            wide as i128
        }
    };
    let half: i128 = (width_bound(bits) / 2) as i128;
    if value < -half || value >= half {
        Err(DecodeError::RangeOverflow)
    } else {
        Ok(value as i64)
    }
}

} // verus!
