//! Properties of the codec as a whole, stated over the model and proved.
use crate::buffered::{buffered_i, buffered_u, wide_i, wide_modulus, wide_u, DecodeError, WIDE_GROUPS};
use crate::model::{
    canonical_i, canonical_u, dec_i, enc_i, enc_u, frame, is_width, lemma_dec_enc_i,
    lemma_enc_i_len, lemma_enc_i_len_pos, lemma_enc_i_terminated, lemma_enc_u_len,
    lemma_enc_u_len_pos, lemma_enc_u_terminated, lemma_place_values, lemma_raw_bound,
    lemma_raw_enc_u, lemma_raw_push, lemma_scan_prefix, lemma_width_facts, max_len, payload,
    place, raw, signed_fits, stream_i, stream_u, terminated, unsigned_fits, Decoded,
};
use vstd::arithmetic::div_mod::lemma_small_mod;
use vstd::arithmetic::power2::pow2;
use vstd::prelude::*;

verus! {

/// Every value of a width encodes, unsigned, in at least one and at most
/// `ceil(width / 7)` bytes.
pub proof fn length_bound_unsigned(v: nat, bits: nat)
    requires
        is_width(bits),
        v < pow2(bits),
    ensures
        1 <= enc_u(v).len() <= max_len(bits),
{
    lemma_width_facts(bits);
    lemma_enc_u_len_pos(v);
    lemma_enc_u_len(v, max_len(bits));
}

/// Every value of a width encodes, signed, in at least one and at most
/// `ceil(width / 7)` bytes.
pub proof fn length_bound_signed(v: int, bits: nat)
    requires
        is_width(bits),
        signed_fits(v, bits),
    ensures
        1 <= enc_i(v).len() <= max_len(bits),
{
    lemma_width_facts(bits);
    lemma_enc_i_len_pos(v);
    lemma_enc_i_len(v, max_len(bits));
}

/// Unsigned round trip: both decoders give back the value from its
/// encoding, whatever bytes follow it.
pub proof fn round_trip_unsigned(v: nat, bits: nat, rest: Seq<u8>)
    requires
        is_width(bits),
        v < pow2(bits),
    ensures
        stream_u(enc_u(v) + rest, bits) == Decoded::Value(v as int),
        buffered_u(enc_u(v) + rest, bits) == Ok::<int, DecodeError>(v as int),
{
    let e = enc_u(v);
    length_bound_unsigned(v, bits);
    lemma_enc_u_terminated(v);
    lemma_raw_enc_u(v);
    lemma_scan_prefix(e, rest, max_len(bits));
    assert(canonical_u(e, bits));
    lemma_scan_prefix(e, rest, WIDE_GROUPS as nat);
    lemma_place_values();
    lemma_width_facts(bits);
    lemma_small_mod(v, wide_modulus());
    assert(wide_u(e) == v);
}

/// Signed round trip: both decoders give back the value from its encoding,
/// whatever bytes follow it.
pub proof fn round_trip_signed(v: int, bits: nat, rest: Seq<u8>)
    requires
        is_width(bits),
        signed_fits(v, bits),
    ensures
        stream_i(enc_i(v) + rest, bits) == Decoded::Value(v),
        buffered_i(enc_i(v) + rest, bits) == Ok::<int, DecodeError>(v),
{
    let e = enc_i(v);
    length_bound_signed(v, bits);
    lemma_enc_i_terminated(v);
    lemma_dec_enc_i(v);
    lemma_scan_prefix(e, rest, max_len(bits));
    assert(canonical_i(e, bits));
    lemma_scan_prefix(e, rest, WIDE_GROUPS as nat);
    assert(wide_i(e) == v);
}

/// Unsigned encoding is minimal: any byte sequence whose groups sum to `v`
/// is at least as long as the encoding of `v`.
pub proof fn minimal_unsigned(v: nat, s: Seq<u8>)
    requires
        s.len() >= 1,
        raw(s) == v,
    ensures
        enc_u(v).len() <= s.len(),
{
    lemma_raw_bound(s);
    lemma_enc_u_len(v, s.len());
}

/// Signed encoding is minimal: any byte sequence that decodes, signed, to
/// `v` is at least as long as the encoding of `v`.
pub proof fn minimal_signed(v: int, s: Seq<u8>)
    requires
        s.len() >= 1,
        dec_i(s) == v,
    ensures
        enc_i(v).len() <= s.len(),
{
    let m = s.len();
    let front = s.take(m - 1);
    let b = s.last();
    assert(front.push(b) == s);
    lemma_raw_push(front, b);
    lemma_raw_bound(front);
    let k = place((m - 1) as nat) as int;
    assert(place(m) == 128 * k);
    let p = payload(b) as int;
    assert(raw(s) == raw(front) + p * k);
    assert(p * k <= 127 * k) by (nonlinear_arith)
        requires
            p <= 127,
            k >= 0,
    ;
    if p >= 64 {
        assert(p * k >= 64 * k) by (nonlinear_arith)
            requires
                p >= 64,
                k >= 0,
        ;
        assert(v == raw(s) - place(m));
    } else {
        assert(p * k <= 63 * k) by (nonlinear_arith)
            requires
                p <= 63,
                k >= 0,
        ;
        assert(v == raw(s));
    }
    lemma_enc_i_len(v, m);
}

/// Encodings of distinct unsigned values differ.
pub proof fn injective_unsigned(a: nat, b: nat)
    requires
        enc_u(a) == enc_u(b),
    ensures
        a == b,
{
    lemma_raw_enc_u(a);
    lemma_raw_enc_u(b);
}

/// Encodings of distinct signed values differ.
pub proof fn injective_signed(a: int, b: int)
    requires
        enc_i(a) == enc_i(b),
    ensures
        a == b,
{
    lemma_dec_enc_i(a);
    lemma_dec_enc_i(b);
}

/// No decoder yields a value outside the target width.
pub proof fn decoded_values_fit(p: Seq<u8>, bits: nat)
    requires
        is_width(bits),
    ensures
        stream_u(p, bits) matches Decoded::Value(v) ==> unsigned_fits(v, bits),
        stream_i(p, bits) matches Decoded::Value(v) ==> signed_fits(v, bits),
        buffered_u(p, bits) matches Ok(v) ==> unsigned_fits(v, bits),
        buffered_i(p, bits) matches Ok(v) ==> signed_fits(v, bits),
{
}

/// The streaming decoders accept nothing but canonical encodings: whatever
/// value they yield, the bytes they took are exactly its encoding.
pub proof fn streaming_is_canonical(p: Seq<u8>, bits: nat)
    requires
        is_width(bits),
    ensures
        stream_u(p, bits) matches Decoded::Value(v) ==> v >= 0 && frame(p, max_len(bits))
            == enc_u(v as nat),
        stream_i(p, bits) matches Decoded::Value(v) ==> frame(p, max_len(bits)) == enc_i(v),
{
}

/// Canonical encodings are terminated: every byte but the last carries the
/// continuation flag.
pub proof fn encodings_terminated(u: nat, i: int)
    ensures
        terminated(enc_u(u)),
        terminated(enc_i(i)),
{
    lemma_enc_u_terminated(u);
    lemma_enc_i_terminated(i);
}

} // verus!
