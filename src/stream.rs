//! The streaming profile: bytes go to a sink one at a time and come from a
//! source one at a time.
use crate::model::{
    all_continue, canonical_i, canonical_u, continues, dec_i, enc_i, enc_u, exhausted, frame,
    is_width, lemma_enc_i_len, lemma_enc_i_len_pos, lemma_enc_u_len, lemma_place_mono,
    lemma_place_values, lemma_raw_bound, lemma_raw_push, lemma_scan_exhausted, lemma_scan_stop,
    lemma_width_facts, max_len, place, raw, scan_len, signed_fits, signed_stops,
    stream_i, stream_u, Decoded,
};
use vstd::arithmetic::power2::pow2;
use vstd::prelude::*;

verus! {

/// `std::io::Error`, carried through unopened in the results of sinks and
/// sources.
#[verifier::external_type_specification]
#[verifier::external_body]
pub struct ExIoError(std::io::Error);

/// Relies on `std::io::Error::from` with `ErrorKind::UnexpectedEof`: the error
/// an in-memory source reports once it has no byte left.
#[verifier::external_body]
fn end_of_input() -> std::io::Error {
    std::io::Error::from(std::io::ErrorKind::UnexpectedEof)
}

/// Something bytes can be written to, one at a time.
pub trait ByteSink {
    /// Everything written so far.
    spec fn written(&self) -> Seq<u8>;

    /// The sink accepts every byte.
    spec fn reliable(&self) -> bool;

    fn write_byte(&mut self, b: u8) -> (r: Result<(), std::io::Error>)
        ensures
            r is Ok ==> final(self).written() == old(self).written().push(b),
            r is Err ==> final(self).written() == old(self).written(),
            old(self).reliable() ==> r is Ok && final(self).reliable(),
    ;
}

/// Something bytes can be read from, one at a time. `pending` is what it
/// yields before it fails.
pub trait ByteSource {
    /// The bytes still to come.
    spec fn pending(&self) -> Seq<u8>;

    fn read_byte(&mut self) -> (r: Result<u8, std::io::Error>)
        ensures
            old(self).pending().len() == 0 ==> r is Err && final(self).pending() == old(
                self,
            ).pending(),
            old(self).pending().len() > 0 ==> (r matches Ok(b) && b == old(self).pending()[0]
                && final(self).pending() == old(self).pending().drop_first()),
    ;
}

impl ByteSink for Vec<u8> {
    open spec fn written(&self) -> Seq<u8> {
        self@
    }

    open spec fn reliable(&self) -> bool {
        true
    }

    fn write_byte(&mut self, b: u8) -> (r: Result<(), std::io::Error>) {
        self.push(b);
        Ok(())
    }
}

impl<'a> ByteSource for &'a [u8] {
    open spec fn pending(&self) -> Seq<u8> {
        self@
    }

    fn read_byte(&mut self) -> (r: Result<u8, std::io::Error>) {
        let s: &'a [u8] = *self;
        if s.len() == 0 {
            Err(end_of_input())
        } else {
            let b = s[0];
            *self = vstd::slice::slice_subrange(s, 1, s.len());
            Ok(b)
        }
    }
}

/// Errors of the streaming decoders.
#[derive(Debug)]
pub enum FromLeb128Error {
    /// The bytes are not the canonical encoding of a value of the width.
    Malformed,
    /// The source failed, or ran out of bytes, before the value ended.
    Io(std::io::Error),
}

impl FromLeb128Error {
    /// A short description of the error.
    pub fn describe(&self) -> (r: String)
        ensures
            self is Malformed ==> r@ == "malformed bytes"@,
    {
        proof {
            reveal_strlit("malformed bytes");
        }
        match self {
            FromLeb128Error::Malformed => String::from_str("malformed bytes"),
            FromLeb128Error::Io(e) => io_error_text(e),
        }
    }
}

impl From<std::io::Error> for FromLeb128Error {
    fn from(value: std::io::Error) -> Self {
        FromLeb128Error::Io(value)
    }
}

impl vstd::std_specs::convert::FromSpecImpl<std::io::Error> for FromLeb128Error {
    open spec fn obeys_from_spec() -> bool {
        true
    }

    open spec fn from_spec(v: std::io::Error) -> Self {
        FromLeb128Error::Io(v)
    }
}

/// Relies on `ToString::to_string` through `std::io::Error`'s `Display`.
#[verifier::external_body]
fn io_error_text(e: &std::io::Error) -> String {
    e.to_string()
}

/// What an encoder that writes `enc` has done to a sink: on success all of
/// it and its length is returned, on failure a proper prefix of it went out.
pub open spec fn emitted(
    before: Seq<u8>,
    after: Seq<u8>,
    enc: Seq<u8>,
    r: Result<usize, std::io::Error>,
) -> bool {
    match r {
        Ok(n) => after == before + enc && n == enc.len(),
        Err(_) => before.len() <= after.len() < before.len() + enc.len() && after == before
            + enc.take(after.len() - before.len()),
    }
}

/// Writes the unsigned LEB128 encoding of `value`, byte by byte.
pub fn write_unsigned<S: ByteSink>(value: u64, sink: &mut S) -> (r: Result<usize, std::io::Error>)
    ensures
        emitted(old(sink).written(), final(sink).written(), enc_u(value as nat), r),
        old(sink).reliable() ==> r is Ok,
{
    let ghost enc = enc_u(value as nat);
    let ghost start = sink.written();
    proof {
        lemma_place_values();
        lemma_enc_u_len(value as nat, 10);
        assert(enc.take(0) + enc == enc);
    }
    let mut v: u64 = value;
    let mut count: usize = 0;
    loop
        invariant
            enc.len() <= 10,
            count < enc.len(),
            enc == enc.take(count as int) + enc_u(v as nat),
            sink.written() == start + enc.take(count as int),
            start == old(sink).written(),
            enc == enc_u(value as nat),
            old(sink).reliable() ==> sink.reliable(),
        decreases enc.len() - count,
    {
        let byte: u8 = (v & 0x7f) as u8;
        let rest: u64 = v >> 7;
        proof {
            assert((v & 0x7f) == v % 128) by (bit_vector);
            assert(v >> 7 == v / 128) by (bit_vector);
        }
        let out: u8 = if rest == 0 {
            byte
        } else {
            proof {
                assert(byte < 128 ==> (byte | 0x80) == byte + 128) by (bit_vector);
            }
            byte | 0x80
        };
        let ghost tail = enc_u(v as nat);
        proof {
            assert(tail[0] == out);
            assert(enc.take(count + 1) == enc.take(count as int).push(out)) by {
                assert(enc[count as int] == tail[0]);
            }
        }
        match sink.write_byte(out) {
            Ok(()) => {},
            Err(e) => {
                return Err(e);
            },
        }
        count = count + 1;
        if rest == 0 {
            proof {
                assert(tail.len() == 1);
                assert(enc.take(count as int) == enc);
            }
            return Ok(count);
        }
        proof {
            assert(tail == seq![out] + enc_u(rest as nat));
            assert(enc == enc.take(count as int) + enc_u(rest as nat));
        }
        v = rest;
    }
}

/// Writes the signed LEB128 encoding of `value`, byte by byte.
pub fn write_signed<S: ByteSink>(value: i64, sink: &mut S) -> (r: Result<usize, std::io::Error>)
    ensures
        emitted(old(sink).written(), final(sink).written(), enc_i(value as int), r),
        old(sink).reliable() ==> r is Ok,
{
    let ghost enc = enc_i(value as int);
    let ghost start = sink.written();
    proof {
        lemma_place_values();
        lemma_enc_i_len(value as int, 10);
        assert(enc.take(0) + enc == enc);
    }
    let mut v: i64 = value;
    let mut count: usize = 0;
    loop
        invariant
            enc.len() <= 10,
            count < enc.len(),
            enc == enc.take(count as int) + enc_i(v as int),
            sink.written() == start + enc.take(count as int),
            start == old(sink).written(),
            enc == enc_i(value as int),
            old(sink).reliable() ==> sink.reliable(),
        decreases enc.len() - count,
    {
        let byte: u8 = (v & 0x7f) as u8;
        let rest: i64 = v >> 7;
        proof {
            assert((v & 0x7f) as int == (v as int) % 128) by (bit_vector);
            assert((v >> 7) as int == (v as int) / 128) by (bit_vector);
            assert(byte < 128 ==> ((byte & 0x40 == 0) <==> byte < 64)) by (bit_vector);
        }
        let stops: bool = (rest == 0 && (byte & 0x40) == 0) || (rest == -1 && (byte & 0x40) != 0);
        let out: u8 = if stops {
            byte
        } else {
            proof {
                assert(byte < 128 ==> (byte | 0x80) == byte + 128) by (bit_vector);
            }
            byte | 0x80
        };
        let ghost tail = enc_i(v as int);
        proof {
            assert(stops == signed_stops(v as int));
            assert(tail[0] == out);
            assert(enc.take(count + 1) == enc.take(count as int).push(out)) by {
                assert(enc[count as int] == tail[0]);
            }
        }
        match sink.write_byte(out) {
            Ok(()) => {},
            Err(e) => {
                return Err(e);
            },
        }
        count = count + 1;
        if stops {
            proof {
                assert(tail.len() == 1);
                assert(enc.take(count as int) == enc);
            }
            return Ok(count);
        }
        proof {
            assert(tail == seq![out] + enc_i(rest as int));
            assert(enc == enc.take(count as int) + enc_i(rest as int));
            lemma_enc_i_len_pos(rest as int);
        }
        v = rest;
    }
}

/// Reads bytes up to the first one without the continuation flag, or up to
/// `limit` bytes, whichever comes first. Fails only when the source does.
pub fn read_frame<R: ByteSource>(reader: &mut R, limit: usize) -> (r: Result<
    Vec<u8>,
    std::io::Error,
>)
    requires
        limit >= 1,
    ensures
        final(reader).pending() == old(reader).pending().skip(
            scan_len(old(reader).pending(), limit as nat) as int,
        ),
        r is Err <==> exhausted(old(reader).pending(), limit as nat),
        r matches Ok(got) ==> got@ == frame(old(reader).pending(), limit as nat),
{
    let ghost p = reader.pending();
    let mut got: Vec<u8> = Vec::new();
    loop
        invariant
            p == old(reader).pending(),
            got.len() < limit,
            all_continue(p, got.len() as nat),
            got@ == p.take(got.len() as int),
            reader.pending() == p.skip(got.len() as int),
        decreases limit - got.len(),
    {
        let ghost i = got.len();
        let b = match reader.read_byte() {
            Ok(b) => b,
            Err(e) => {
                proof {
                    assert(p.len() == i);
                    lemma_scan_exhausted(p, limit as nat);
                    assert(p.skip(i as int) == p.skip(p.len() as int));
                }
                return Err(e);
            },
        };
        proof {
            assert(p.skip(i as int)[0] == p[i as int]);
            assert(p.skip(i as int).drop_first() == p.skip(i + 1));
            assert(p.take(i + 1) == p.take(i as int).push(b));
        }
        got.push(b);
        if b < 128 || got.len() == limit {
            proof {
                lemma_scan_stop(p, limit as nat, i as nat);
            }
            return Ok(got);
        }
        proof {
            assert forall|j: int| 0 <= j < i + 1 implies continues(#[trigger] p[j]) by {
                if j < i {
                    assert(continues(p[j]));
                }
            }
        }
    }
}

/// The group sum of the first `n` bytes, and `128^n`.
pub(crate) fn group_sum(got: &Vec<u8>, n: usize) -> (r: (u128, u128))
    requires
        n <= got.len(),
        n <= 18,
    ensures
        r.0 == raw(got@.take(n as int)),
        r.1 == place(n as nat),
        r.0 < r.1,
{
    proof {
        lemma_place_values();
        assert(got@.take(0) == Seq::<u8>::empty());
    }
    let mut acc: u128 = 0;
    let mut scale: u128 = 1;
    let mut i: usize = 0;
    while i < n
        invariant
            i <= n,
            n <= got.len(),
            n <= 18,
            acc == raw(got@.take(i as int)),
            scale == place(i as nat),
            acc < scale,
        decreases n - i,
    {
        let b = got[i];
        let p: u128 = (b & 0x7f) as u128;
        proof {
            assert((b & 0x7f) == b % 128) by (bit_vector);
            assert(got@.take(i + 1) == got@.take(i as int).push(b));
            lemma_raw_push(got@.take(i as int), b);
            lemma_place_values();
            lemma_place_mono(i as nat, 17);
            assert(place(18) == 128 * place(17));
            assert(place((i + 1) as nat) == 128 * place(i as nat));
            assert(p * scale <= 127 * scale) by (nonlinear_arith)
                requires
                    p <= 127,
            ;
            assert(acc + p * scale < 128 * scale);
            assert(128 * scale <= place(18));
        }
        acc = acc + p * scale;
        scale = scale * 128;
        i = i + 1;
    }
    (acc, scale)
}

/// `2^bits` for a supported width.
pub(crate) fn width_bound(bits: u32) -> (r: u128)
    requires
        is_width(bits as nat),
    ensures
        r == pow2(bits as nat),
{
    proof {
        lemma_width_facts(bits as nat);
    }
    if bits == 8 {
        0x100
    } else if bits == 16 {
        0x1_0000
    } else if bits == 32 {
        0x1_0000_0000
    } else {
        0x1_0000_0000_0000_0000
    }
}

/// The two byte vectors hold the same bytes.
fn same_bytes(a: &Vec<u8>, b: &Vec<u8>) -> (r: bool)
    ensures
        r == (a@ == b@),
{
    if a.len() != b.len() {
        return false;
    }
    let mut i: usize = 0;
    while i < a.len()
        invariant
            a.len() == b.len(),
            i <= a.len(),
            forall|j: int| 0 <= j < i ==> a@[j] == b@[j],
        decreases a.len() - i,
    {
        if a[i] != b[i] {
            return false;
        }
        i = i + 1;
    }
    assert(a@ == b@);
    true
}

/// How many values the last group of a width can take: `2^(bits % 7)`.
fn last_group_budget(bits: u32) -> (r: u64)
    requires
        is_width(bits as nat),
    ensures
        r * place((max_len(bits as nat) - 1) as nat) == pow2(bits as nat),
        2 <= r <= 16,
{
    proof {
        lemma_width_facts(bits as nat);
        lemma_place_values();
    }
    if bits == 8 {
        2
    } else if bits == 16 {
        4
    } else if bits == 32 {
        16
    } else {
        2
    }
}

/// The value of a frame of bytes that is the canonical unsigned encoding of
/// a value of the width; `None` for any other bytes. The groups are folded
/// into an accumulator of the target's own width; the last group the width
/// has room for may only carry the bits that are left.
pub fn unsigned_from_frame(got: &Vec<u8>, bits: u32) -> (r: Option<u64>)
    requires
        is_width(bits as nat),
    ensures
        r matches Some(v) ==> canonical_u(got@, bits as nat) && v == raw(got@),
        r is None ==> !canonical_u(got@, bits as nat),
{
    proof {
        lemma_width_facts(bits as nat);
        lemma_place_values();
    }
    let limit: usize = ((bits + 6) / 7) as usize;
    let n = got.len();
    if n == 0 || n > limit {
        proof {
            if canonical_u(got@, bits as nat) {
                lemma_enc_u_len(raw(got@), max_len(bits as nat));
                crate::model::lemma_enc_u_len_pos(raw(got@));
            }
        }
        return None;
    }
    let budget = last_group_budget(bits);
    let ghost top = place((limit - 1) as nat);
    let mut acc: u64 = 0;
    let mut scale: u64 = 1;
    let mut i: usize = 0;
    proof {
        assert(got@.take(0) == Seq::<u8>::empty());
    }
    while i < n
        invariant
            n == got.len(),
            1 <= n <= limit,
            limit == max_len(bits as nat),
            is_width(bits as nat),
            top == place((limit - 1) as nat),
            budget * top == pow2(bits as nat),
            top * 2 <= pow2(bits as nat),
            pow2(bits as nat) <= 0x1_0000_0000_0000_0000,
            i <= n,
            acc == raw(got@.take(i as int)),
            acc < place(i as nat),
            acc < pow2(bits as nat),
            i < n ==> scale == place(i as nat),
        decreases n - i,
    {
        let b = got[i];
        let p: u64 = (b & 0x7f) as u64;
        proof {
            assert((b & 0x7f) == b % 128) by (bit_vector);
            assert(got@.take(i + 1) == got@.take(i as int).push(b));
            lemma_raw_push(got@.take(i as int), b);
            lemma_place_mono(i as nat, (limit - 1) as nat);
            assert(place((i + 1) as nat) == 128 * place(i as nat));
        }
        if i + 1 == limit && p >= budget {
            proof {
                assert(p * scale >= budget * top) by (nonlinear_arith)
                    requires
                        p >= budget,
                        scale == top,
                        top >= 0,
                ;
                assert(got@.take(i + 1) == got@);
            }
            return None;
        }
        proof {
            if i + 1 == limit {
                assert(p * scale <= (budget - 1) * top) by (nonlinear_arith)
                    requires
                        p <= budget - 1,
                        scale == top,
                        top >= 0,
                ;
                assert((budget - 1) * top == budget * top - top) by (nonlinear_arith);
            } else {
                lemma_place_mono((i + 1) as nat, (limit - 1) as nat);
                assert(p * scale <= 127 * scale) by (nonlinear_arith)
                    requires
                        p <= 127,
                ;
            }
            assert(p * scale <= 127 * scale) by (nonlinear_arith)
                requires
                    p <= 127,
            ;
        }
        acc = acc + p * scale;
        if i + 1 < n {
            scale = scale * 128;
        }
        i = i + 1;
    }
    proof {
        assert(got@.take(n as int) == got@);
        lemma_place_mono(n as nat, limit as nat);
    }
    let v: u64 = acc;
    let enc = crate::buffered::encode_unsigned(v);
    if same_bytes(&enc, got) {
        proof {
            lemma_raw_bound(got@);
        }
        Some(v)
    } else {
        None
    }
}

/// How many non-negative values the last group of a signed width can take:
/// `2^(bits % 7 - 1)`, the group's bits below the sign bit of the width.
fn last_group_sign_budget(bits: u32) -> (r: i64)
    requires
        is_width(bits as nat),
    ensures
        r * place((max_len(bits as nat) - 1) as nat) == pow2((bits - 1) as nat),
        1 <= r <= 8,
{
    proof {
        lemma_width_facts(bits as nat);
        lemma_place_values();
        vstd::arithmetic::power2::lemma2_to64();
        vstd::arithmetic::power2::lemma2_to64_rest();
    }
    if bits == 8 {
        1
    } else if bits == 16 {
        2
    } else if bits == 32 {
        8
    } else {
        1
    }
}

/// The value of a frame of bytes that is the canonical signed encoding of a
/// value of the width; `None` for any other bytes. The groups are folded
/// into an accumulator of the target's own width. In the last group the
/// width has room for, the bits from the width's sign bit up must all be
/// zero when bit 6 is clear and all one when it is set.
pub fn signed_from_frame(got: &Vec<u8>, bits: u32) -> (r: Option<i64>)
    requires
        is_width(bits as nat),
    ensures
        r matches Some(v) ==> canonical_i(got@, bits as nat) && v == dec_i(got@),
        r is None ==> !canonical_i(got@, bits as nat),
{
    proof {
        lemma_width_facts(bits as nat);
        lemma_place_values();
    }
    let limit: usize = ((bits + 6) / 7) as usize;
    let n = got.len();
    if n == 0 || n > limit {
        proof {
            if canonical_i(got@, bits as nat) {
                lemma_enc_i_len(dec_i(got@), max_len(bits as nat));
                lemma_enc_i_len_pos(dec_i(got@));
            }
        }
        return None;
    }
    let mut acc: u64 = 0;
    let mut scale: u64 = 1;
    let mut i: usize = 0;
    proof {
        assert(got@.take(0) == Seq::<u8>::empty());
    }
    while i + 1 < n
        invariant
            n == got.len(),
            1 <= n <= limit,
            limit <= 10,
            i + 1 <= n,
            acc == raw(got@.take(i as int)),
            acc < scale,
            scale == place(i as nat),
        decreases n - i,
    {
        let b = got[i];
        let p: u64 = (b & 0x7f) as u64;
        proof {
            lemma_place_values();
            assert((b & 0x7f) == b % 128) by (bit_vector);
            assert(got@.take(i + 1) == got@.take(i as int).push(b));
            lemma_raw_push(got@.take(i as int), b);
            lemma_place_mono(i as nat, 8);
            assert(place((i + 1) as nat) == 128 * place(i as nat));
            assert(p * scale <= 127 * scale) by (nonlinear_arith)
                requires
                    p <= 127,
            ;
        }
        acc = acc + p * scale;
        scale = scale * 128;
        i = i + 1;
    }
    let last: u8 = got[n - 1];
    let p: i64 = (last & 0x7f) as i64;
    let negative: bool = last & 0x40 != 0;
    let digit: i64 = if negative {
        p - 128
    } else {
        p
    };
    let ghost m = place((n - 1) as nat) as int;
    proof {
        assert((last & 0x7f) == last % 128) by (bit_vector);
        assert(negative <==> (last % 128 >= 64)) by (bit_vector)
            requires
                negative == (last & 0x40 != 0),
        ;
        assert(got@.take(n - 1).push(last) == got@);
        assert(got@.last() == last);
        lemma_raw_push(got@.take(n - 1), last);
        assert(place(n as nat) == 128 * m);
        lemma_place_mono((n - 1) as nat, (limit - 1) as nat);
        assert(raw(got@) == acc + p * m);
        assert(dec_i(got@) == acc + digit * m) by (nonlinear_arith)
            requires
                raw(got@) == acc + p * m,
                negative ==> digit == p - 128,
                !negative ==> digit == p,
                negative ==> dec_i(got@) == raw(got@) - 128 * m,
                !negative ==> dec_i(got@) == raw(got@),
        ;
    }
    let v: i64 = if n == limit {
        let keep = last_group_sign_budget(bits);
        let ghost k = keep as int;
        let ghost half = pow2((bits - 1) as nat) as int;
        if (negative && digit < -keep) || (!negative && digit >= keep) {
            proof {
                if negative {
                    assert(digit * m <= (-k - 1) * m) by (nonlinear_arith)
                        requires
                            digit <= -k - 1,
                            m >= 0,
                    ;
                    assert((-k - 1) * m == -(k * m) - m) by (nonlinear_arith);
                } else {
                    assert(digit * m >= k * m) by (nonlinear_arith)
                        requires
                            digit >= k,
                            m >= 0,
                    ;
                }
            }
            return None;
        }
        proof {
            if negative {
                assert(digit * m >= -k * m) by (nonlinear_arith)
                    requires
                        digit >= -k,
                        m >= 0,
                ;
                assert(digit * m <= -m) by (nonlinear_arith)
                    requires
                        digit <= -1,
                        m >= 0,
                ;
                assert(-k * m == -(k * m)) by (nonlinear_arith);
            } else {
                assert(digit * m <= (k - 1) * m) by (nonlinear_arith)
                    requires
                        digit <= k - 1,
                        m >= 0,
                ;
                assert(digit * m >= 0) by (nonlinear_arith)
                    requires
                        digit >= 0,
                        m >= 0,
                ;
                assert((k - 1) * m == k * m - m) by (nonlinear_arith);
            }
            assert(signed_fits(dec_i(got@), bits as nat));
        }
        (acc as i128 + digit as i128 * scale as i128) as i64
    } else {
        proof {
            lemma_place_mono((n - 1) as nat, (limit - 2) as nat);
            assert(-64 <= digit <= 63);
            assert(-64 * m <= digit * m <= 63 * m) by (nonlinear_arith)
                requires
                    -64 <= digit <= 63,
                    m >= 0,
            ;
            assert(signed_fits(dec_i(got@), bits as nat));
        }
        (acc as i128 + digit as i128 * scale as i128) as i64
    };
    let enc = crate::buffered::encode_signed(v);
    if same_bytes(&enc, got) {
        Some(v)
    } else {
        None
    }
}

/// Streaming unsigned decode: reads one byte at a time and accepts only the
/// canonical encoding of a value of the width.
pub fn read_unsigned<R: ByteSource>(reader: &mut R, bits: u32) -> (r: Result<
    u64,
    FromLeb128Error,
>)
    requires
        is_width(bits as nat),
    ensures
        final(reader).pending() == old(reader).pending().skip(
            scan_len(old(reader).pending(), max_len(bits as nat)) as int,
        ),
        match r {
            Ok(v) => stream_u(old(reader).pending(), bits as nat) == Decoded::Value(v as int),
            Err(FromLeb128Error::Malformed) => stream_u(old(reader).pending(), bits as nat)
                == Decoded::Malformed,
            Err(FromLeb128Error::Io(_)) => stream_u(old(reader).pending(), bits as nat)
                == Decoded::Exhausted,
        },
{
    proof {
        lemma_width_facts(bits as nat);
    }
    let limit: usize = ((bits + 6) / 7) as usize;
    match read_frame(reader, limit) {
        Err(e) => Err(FromLeb128Error::from(e)),
        Ok(got) => match unsigned_from_frame(&got, bits) {
            Some(v) => Ok(v),
            None => Err(FromLeb128Error::Malformed),
        },
    }
}

/// Streaming signed decode: reads one byte at a time and accepts only the
/// canonical encoding of a value of the width.
pub fn read_signed<R: ByteSource>(reader: &mut R, bits: u32) -> (r: Result<
    i64,
    FromLeb128Error,
>)
    requires
        is_width(bits as nat),
    ensures
        final(reader).pending() == old(reader).pending().skip(
            scan_len(old(reader).pending(), max_len(bits as nat)) as int,
        ),
        match r {
            Ok(v) => stream_i(old(reader).pending(), bits as nat) == Decoded::Value(v as int),
            Err(FromLeb128Error::Malformed) => stream_i(old(reader).pending(), bits as nat)
                == Decoded::Malformed,
            Err(FromLeb128Error::Io(_)) => stream_i(old(reader).pending(), bits as nat)
                == Decoded::Exhausted,
        },
{
    proof {
        lemma_width_facts(bits as nat);
    }
    let limit: usize = ((bits + 6) / 7) as usize;
    match read_frame(reader, limit) {
        Err(e) => Err(FromLeb128Error::from(e)),
        Ok(got) => match signed_from_frame(&got, bits) {
            Some(v) => Ok(v),
            None => Err(FromLeb128Error::Malformed),
        },
    }
}

} // verus!
