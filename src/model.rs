//! Mathematical model of LEB128: the canonical encodings, the value a byte
//! sequence denotes, and how far a decoder reads into a byte stream.
use vstd::arithmetic::power2::{lemma2_to64, lemma2_to64_rest, pow2};
use vstd::prelude::*;

verus! {

/// The integer widths the codec supports.
pub open spec fn is_width(bits: nat) -> bool {
    bits == 8 || bits == 16 || bits == 32 || bits == 64
}

/// `ceil(bits / 7)`: the most bytes a value of that width ever needs.
pub open spec fn max_len(bits: nat) -> nat {
    (bits + 6) / 7
}

/// `128^n`: the weight of the group at index `n`.
pub open spec fn place(n: nat) -> nat
    decreases n,
{
    if n == 0 {
        1
    } else {
        128 * place((n - 1) as nat)
    }
}

/// The low seven bits of a byte.
pub open spec fn payload(b: u8) -> nat {
    (b % 128) as nat
}

/// The continuation flag of a byte is set.
pub open spec fn continues(b: u8) -> bool {
    b >= 128
}

/// Canonical unsigned encoding of `v`.
pub open spec fn enc_u(v: nat) -> Seq<u8>
    decreases v,
{
    if v < 128 {
        seq![v as u8]
    } else {
        seq![(v % 128 + 128) as u8] + enc_u(v / 128)
    }
}

pub open spec fn signed_measure(v: int) -> nat {
    if v >= 0 {
        v as nat
    } else {
        (-v - 1) as nat
    }
}

/// The signed encoding stops once the rest of the value is all sign bits and
/// bit 6 of the last group agrees with that sign.
pub open spec fn signed_stops(v: int) -> bool {
    (v / 128 == 0 && v % 128 < 64) || (v / 128 == -1 && v % 128 >= 64)
}

/// Canonical signed encoding of `v`.
pub open spec fn enc_i(v: int) -> Seq<u8>
    decreases signed_measure(v),
{
    if signed_stops(v) {
        seq![(v % 128) as u8]
    } else {
        seq![(v % 128 + 128) as u8] + enc_i(v / 128)
    }
}

/// The sum of the seven-bit groups of `s`, least significant first.
pub open spec fn raw(s: Seq<u8>) -> nat
    decreases s.len(),
{
    if s.len() == 0 {
        0
    } else {
        payload(s[0]) + 128 * raw(s.drop_first())
    }
}

/// The signed value of a group sequence: its sum, sign-extended from bit 6
/// of the last group.
pub open spec fn dec_i(s: Seq<u8>) -> int {
    if s.len() > 0 && payload(s.last()) >= 64 {
        raw(s) - place(s.len())
    } else {
        raw(s) as int
    }
}

/// Every byte but the last continues; the last one ends the sequence.
pub open spec fn terminated(s: Seq<u8>) -> bool {
    &&& s.len() > 0
    &&& !continues(s.last())
    &&& forall|j: int| 0 <= j < s.len() - 1 ==> continues(#[trigger] s[j])
}

/// The first `n` bytes of `s` all continue.
pub open spec fn all_continue(s: Seq<u8>, n: nat) -> bool {
    n <= s.len() && forall|j: int| 0 <= j < n ==> continues(#[trigger] s[j])
}

/// How many bytes a decoder reads from `s` when it gives up after `limit`
/// bytes: up to the first byte without the continuation flag, at most
/// `limit`, and at most what `s` holds.
pub open spec fn scan_len(s: Seq<u8>, limit: nat) -> nat
    decreases s.len(),
{
    if s.len() == 0 || limit == 0 {
        0
    } else if !continues(s[0]) || limit == 1 {
        1
    } else {
        1 + scan_len(s.drop_first(), (limit - 1) as nat)
    }
}

/// The stream ends before a decoder reading at most `limit` bytes decides.
pub open spec fn exhausted(s: Seq<u8>, limit: nat) -> bool {
    s.len() < limit && all_continue(s, s.len())
}

/// The bytes a decoder with the given limit takes from `s`.
pub open spec fn frame(s: Seq<u8>, limit: nat) -> Seq<u8> {
    s.take(scan_len(s, limit) as int)
}

pub open spec fn unsigned_fits(v: int, bits: nat) -> bool {
    0 <= v < pow2(bits)
}

pub open spec fn signed_fits(v: int, bits: nat) -> bool {
    bits >= 1 && -pow2((bits - 1) as nat) <= v < pow2((bits - 1) as nat)
}

/// The bytes are the canonical unsigned encoding of a value of the width.
pub open spec fn canonical_u(got: Seq<u8>, bits: nat) -> bool {
    unsigned_fits(raw(got) as int, bits) && enc_u(raw(got)) == got
}

/// The bytes are the canonical signed encoding of a value of the width.
pub open spec fn canonical_i(got: Seq<u8>, bits: nat) -> bool {
    signed_fits(dec_i(got), bits) && enc_i(dec_i(got)) == got
}

/// What a streaming decode makes of the bytes that a source will yield.
pub enum Decoded {
    Value(int),
    Malformed,
    Exhausted,
}

/// The strict streaming decoder, unsigned: the source runs dry before a
/// decision, or the bytes read are the canonical encoding of a value of the
/// width, or they are malformed.
pub open spec fn stream_u(p: Seq<u8>, bits: nat) -> Decoded {
    let got = frame(p, max_len(bits));
    if exhausted(p, max_len(bits)) {
        Decoded::Exhausted
    } else if canonical_u(got, bits) {
        Decoded::Value(raw(got) as int)
    } else {
        Decoded::Malformed
    }
}

/// The strict streaming decoder, signed.
pub open spec fn stream_i(p: Seq<u8>, bits: nat) -> Decoded {
    let got = frame(p, max_len(bits));
    if exhausted(p, max_len(bits)) {
        Decoded::Exhausted
    } else if canonical_i(got, bits) {
        Decoded::Value(dec_i(got))
    } else {
        Decoded::Malformed
    }
}

// ---------------------------------------------------------------------------
// Lemmas
// ---------------------------------------------------------------------------

pub proof fn lemma_place_pos(n: nat)
    ensures
        place(n) >= 1,
    decreases n,
{
    if n > 0 {
        lemma_place_pos((n - 1) as nat);
    }
}

pub proof fn lemma_place_values()
    ensures
        place(0) == 1,
        place(1) == 128,
        place(2) == 0x4000,
        place(3) == 0x20_0000,
        place(4) == 0x1000_0000,
        place(5) == 0x8_0000_0000,
        place(9) == 0x8000_0000_0000_0000,
        place(10) == 0x40_0000_0000_0000_0000,
        place(18) * 4 == 0x1_0000_0000_0000_0000_0000_0000_0000_0000nat,
{
    reveal_with_fuel(place, 20);
}

pub proof fn lemma_place_mono(a: nat, b: nat)
    requires
        a <= b,
    ensures
        place(a) <= place(b),
    decreases b,
{
    if a < b {
        lemma_place_mono(a, (b - 1) as nat);
        lemma_place_pos((b - 1) as nat);
    }
}

/// The width bounds, spelled out for the four widths.
pub proof fn lemma_width_facts(bits: nat)
    requires
        is_width(bits),
    ensures
        1 <= max_len(bits) <= 10,
        pow2(bits) <= place(max_len(bits)),
        place((max_len(bits) - 1) as nat) * 2 <= pow2(bits),
        place((max_len(bits) - 2) as nat) * 64 <= pow2((bits - 1) as nat),
        pow2((bits - 1) as nat) <= 0x8000_0000_0000_0000,
        pow2(bits) == 2 * pow2((bits - 1) as nat),
        bits == 8 ==> pow2(bits) == 0x100 && max_len(bits) == 2,
        bits == 16 ==> pow2(bits) == 0x1_0000 && max_len(bits) == 3,
        bits == 32 ==> pow2(bits) == 0x1_0000_0000 && max_len(bits) == 5,
        bits == 64 ==> pow2(bits) == 0x1_0000_0000_0000_0000 && max_len(bits) == 10,
{
    lemma2_to64();
    lemma2_to64_rest();
    lemma_place_values();
}

pub proof fn lemma_enc_u_len_pos(v: nat)
    ensures
        enc_u(v).len() >= 1,
    decreases v,
{
    if v >= 128 {
        lemma_enc_u_len_pos(v / 128);
    }
}

pub proof fn lemma_enc_i_len_pos(v: int)
    ensures
        enc_i(v).len() >= 1,
    decreases signed_measure(v),
{
    if !signed_stops(v) {
        lemma_enc_i_len_pos(v / 128);
    }
}

/// A canonical unsigned encoding is one terminated group sequence.
pub proof fn lemma_enc_u_terminated(v: nat)
    ensures
        terminated(enc_u(v)),
    decreases v,
{
    if v >= 128 {
        lemma_enc_u_terminated(v / 128);
        let t = enc_u(v / 128);
        let s = enc_u(v);
        assert(s == seq![(v % 128 + 128) as u8] + t);
        assert forall|j: int| 0 <= j < s.len() - 1 implies continues(#[trigger] s[j]) by {
            if j > 0 {
                assert(s[j] == t[j - 1]);
            }
        }
    }
}

/// A canonical signed encoding is one terminated group sequence.
pub proof fn lemma_enc_i_terminated(v: int)
    ensures
        terminated(enc_i(v)),
    decreases signed_measure(v),
{
    if !signed_stops(v) {
        lemma_enc_i_terminated(v / 128);
        let t = enc_i(v / 128);
        let s = enc_i(v);
        assert(s == seq![(v % 128 + 128) as u8] + t);
        assert forall|j: int| 0 <= j < s.len() - 1 implies continues(#[trigger] s[j]) by {
            if j > 0 {
                assert(s[j] == t[j - 1]);
            }
        }
    }
}

/// Unsigned decoding undoes unsigned encoding.
pub proof fn lemma_raw_enc_u(v: nat)
    ensures
        raw(enc_u(v)) == v,
    decreases v,
{
    let s = enc_u(v);
    if v < 128 {
        assert(s.drop_first() == Seq::<u8>::empty());
        assert(payload(s[0]) == v);
    } else {
        lemma_raw_enc_u(v / 128);
        assert(s.drop_first() == enc_u(v / 128));
        assert(payload(s[0]) == v % 128);
        assert(raw(s) == payload(s[0]) + 128 * raw(s.drop_first()));
    }
}

/// Signed decoding undoes signed encoding.
pub proof fn lemma_dec_enc_i(v: int)
    ensures
        dec_i(enc_i(v)) == v,
    decreases signed_measure(v),
{
    let s = enc_i(v);
    reveal_with_fuel(place, 2);
    if signed_stops(v) {
        assert(s.drop_first() == Seq::<u8>::empty());
        assert(payload(s[0]) == v % 128);
        assert(raw(s.drop_first()) == 0);
        assert(raw(s) == payload(s[0]) + 128 * raw(s.drop_first()));
    } else {
        let t = enc_i(v / 128);
        lemma_dec_enc_i(v / 128);
        lemma_enc_i_len_pos(v / 128);
        assert(s.drop_first() == t);
        assert(s.last() == t.last());
        assert(payload(s[0]) == v % 128);
        assert(raw(s) == v % 128 + 128 * raw(t));
        assert(place(s.len()) == 128 * place(t.len()));
        if payload(t.last()) >= 64 {
            assert(dec_i(s) == v % 128 + 128 * dec_i(t));
        } else {
            assert(dec_i(s) == v % 128 + 128 * dec_i(t));
        }
    }
}

/// The sum of `n` groups is below `128^n`.
pub proof fn lemma_raw_bound(s: Seq<u8>)
    ensures
        raw(s) < place(s.len()),
    decreases s.len(),
{
    if s.len() > 0 {
        lemma_raw_bound(s.drop_first());
    }
}

/// Appending a group adds it at the next place.
pub proof fn lemma_raw_push(s: Seq<u8>, b: u8)
    ensures
        raw(s.push(b)) == raw(s) + payload(b) * place(s.len()),
    decreases s.len(),
{
    if s.len() == 0 {
        assert(s.push(b).drop_first() == Seq::<u8>::empty());
        assert(s.push(b)[0] == b);
        assert(place(0) == 1);
        assert(raw(s.push(b).drop_first()) == 0);
        assert(raw(s.push(b)) == payload(s.push(b)[0]) + 128 * raw(s.push(b).drop_first()));
    } else {
        lemma_raw_push(s.drop_first(), b);
        assert(s.push(b)[0] == s[0]);
        assert(raw(s) == payload(s[0]) + 128 * raw(s.drop_first()));
        assert(raw(s.push(b)) == payload(s.push(b)[0]) + 128 * raw(s.push(b).drop_first()));
        assert(s.push(b).drop_first() == s.drop_first().push(b));
        assert(raw(s.push(b)) == payload(s[0]) + 128 * (raw(s.drop_first()) + payload(b) * place(
            (s.len() - 1) as nat,
        )));
        assert(128 * (payload(b) * place((s.len() - 1) as nat)) == payload(b) * place(s.len()))
            by (nonlinear_arith)
            requires
                place(s.len()) == 128 * place((s.len() - 1) as nat),
        ;
    }
}

/// Short values have short encodings.
pub proof fn lemma_enc_u_len(v: nat, m: nat)
    requires
        m >= 1,
        v < place(m),
    ensures
        enc_u(v).len() <= m,
    decreases m,
{
    if v >= 128 {
        if m == 1 {
            assert(place(1) == 128 * place(0));
            assert(false);
        } else {
            lemma_enc_u_len(v / 128, (m - 1) as nat);
        }
    }
}

/// Signed values within `[-128^m / 2, 128^m / 2)` take at most `m` bytes.
pub proof fn lemma_enc_i_len(v: int, m: nat)
    requires
        m >= 1,
        -(place(m) as int) <= 2 * v < place(m),
    ensures
        enc_i(v).len() <= m,
    decreases m,
{
    if !signed_stops(v) {
        if m == 1 {
            assert(place(1) == 128 * place(0));
            assert(false);
        } else {
            let k = place((m - 1) as nat) as int;
            let j = place((m - 2) as nat) as int;
            assert(place(m) == 128 * k);
            assert(k == 128 * j);
            let q = v / 128;
            let r = v % 128;
            assert(v == 128 * q + r && 0 <= r < 128);
            assert(-k <= 2 * q < k) by (nonlinear_arith)
                requires
                    v == 128 * q + r,
                    0 <= r < 128,
                    -(128 * k) <= 2 * v < 128 * k,
                    k == 128 * j,
            ;
            lemma_enc_i_len(q, (m - 1) as nat);
        }
    }
}

/// Reading a terminated prefix stops right after it.
pub proof fn lemma_scan_prefix(t: Seq<u8>, rest: Seq<u8>, limit: nat)
    requires
        terminated(t),
        t.len() <= limit,
    ensures
        scan_len(t + rest, limit) == t.len(),
        frame(t + rest, limit) == t,
        !exhausted(t + rest, limit),
    decreases t.len(),
{
    let s = t + rest;
    assert(s[t.len() - 1] == t.last());
    if t.len() > 1 {
        let t2 = t.drop_first();
        assert(s.drop_first() == t2 + rest);
        assert(continues(t[0]));
        assert(t2.last() == t.last());
        assert forall|j: int| 0 <= j < t2.len() - 1 implies continues(#[trigger] t2[j]) by {
            assert(t2[j] == t[j + 1]);
        }
        lemma_scan_prefix(t2, rest, (limit - 1) as nat);
    }
    assert(s.take(t.len() as int) == t);
}

/// `scan_len` stays within the limit and the bytes there are.
pub proof fn lemma_scan_len_bound(s: Seq<u8>, limit: nat)
    ensures
        scan_len(s, limit) <= limit,
        scan_len(s, limit) <= s.len(),
    decreases s.len(),
{
    if s.len() > 0 && limit > 0 && continues(s[0]) && limit != 1 {
        lemma_scan_len_bound(s.drop_first(), (limit - 1) as nat);
    }
}

/// A decoder that has read `i` continuing bytes and reads one more stops
/// there when that byte ends the value or the limit is reached.
pub proof fn lemma_scan_stop(s: Seq<u8>, limit: nat, i: nat)
    requires
        i < limit,
        i < s.len(),
        all_continue(s, i),
        !continues(s[i as int]) || i + 1 == limit,
    ensures
        scan_len(s, limit) == i + 1,
        !exhausted(s, limit),
    decreases i,
{
    if i > 0 {
        let s2 = s.drop_first();
        assert(continues(s[0]));
        assert forall|j: int| 0 <= j < i - 1 implies continues(#[trigger] s2[j]) by {
            assert(s2[j] == s[j + 1]);
        }
        assert(s2[i - 1] == s[i as int]);
        lemma_scan_stop(s2, (limit - 1) as nat, (i - 1) as nat);
    }
}

/// A decoder that runs out of bytes has read all of them.
pub proof fn lemma_scan_exhausted(s: Seq<u8>, limit: nat)
    requires
        exhausted(s, limit),
    ensures
        scan_len(s, limit) == s.len(),
    decreases s.len(),
{
    if s.len() > 0 {
        let s2 = s.drop_first();
        assert(continues(s[0]));
        assert forall|j: int| 0 <= j < s2.len() implies continues(#[trigger] s2[j]) by {
            assert(s2[j] == s[j + 1]);
        }
        lemma_scan_exhausted(s2, (limit - 1) as nat);
    }
}

} // verus!
