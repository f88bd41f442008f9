use leb128::{
    decode_signed, decode_unsigned, encode_signed, encode_unsigned, read_signed, read_unsigned,
    signed_from_frame, unsigned_from_frame, DecodeError, FromLeb128Error, FromLeb128i,
    FromLeb128u, ToLeb128i, ToLeb128u,
};

fn is_malformed<T>(r: Result<T, FromLeb128Error>) -> bool {
    matches!(r, Err(FromLeb128Error::Malformed))
}

fn io_kind<T>(r: Result<T, FromLeb128Error>) -> Option<std::io::ErrorKind> {
    match r {
        Err(FromLeb128Error::Io(e)) => Some(e.kind()),
        _ => None,
    }
}

#[test]
fn signed_boundaries_of_i8() {
    let mut buf = Vec::new();
    assert_eq!(64i8.to_leb128i(&mut buf).unwrap(), 2);
    assert_eq!(buf, vec![0xc0, 0x00]);
    buf.clear();
    (-64i8).to_leb128i(&mut buf).unwrap();
    assert_eq!(buf, vec![0x40]);
    buf.clear();
    (-65i8).to_leb128i(&mut buf).unwrap();
    assert_eq!(buf, vec![0xbf, 0x7f]);
    buf.clear();
    127i8.to_leb128i(&mut buf).unwrap();
    assert_eq!(buf, vec![0xff, 0x00]);
    buf.clear();
    (-128i8).to_leb128i(&mut buf).unwrap();
    assert_eq!(buf, vec![0x80, 0x7f]);
    assert_eq!(encode_signed(64), vec![0xc0, 0x00]);
    assert_eq!(encode_signed(-65), vec![0xbf, 0x7f]);
}

#[test]
fn unsigned_boundaries_of_u8() {
    let mut buf = Vec::new();
    assert_eq!(127u8.to_leb128u(&mut buf).unwrap(), 1);
    assert_eq!(buf, vec![0x7f]);
    buf.clear();
    assert_eq!(128u8.to_leb128u(&mut buf).unwrap(), 2);
    assert_eq!(buf, vec![0x80, 0x01]);
    assert_eq!(encode_unsigned(0), vec![0x00]);
    assert_eq!(encode_unsigned(255), vec![0xff, 0x01]);
    assert_eq!(encode_unsigned(624485), vec![0xe5, 0x8e, 0x26]);
    assert_eq!(encode_signed(-123456), vec![0xc0, 0xbb, 0x78]);
}

#[test]
fn widest_values_take_ten_bytes() {
    let mut buf = Vec::new();
    assert_eq!(u64::MAX.to_leb128u(&mut buf).unwrap(), 10);
    assert_eq!(buf, vec![0xff, 0xff, 0xff, 0xff, 0xff, 0xff, 0xff, 0xff, 0xff, 0x01]);
    assert_eq!(u64::from_leb128u(&mut &buf[..]).unwrap(), u64::MAX);
    buf.clear();
    assert_eq!(i64::MIN.to_leb128i(&mut buf).unwrap(), 10);
    assert_eq!(buf, vec![0x80, 0x80, 0x80, 0x80, 0x80, 0x80, 0x80, 0x80, 0x80, 0x7f]);
    assert_eq!(i64::from_leb128i(&mut &buf[..]).unwrap(), i64::MIN);
    buf.clear();
    assert_eq!(i64::MAX.to_leb128i(&mut buf).unwrap(), 10);
    assert_eq!(i64::from_leb128i(&mut &buf[..]).unwrap(), i64::MAX);
    assert_eq!(u32::MAX.to_leb128u(&mut Vec::new()).unwrap(), 5);
    assert_eq!(i32::MIN.to_leb128i(&mut Vec::new()).unwrap(), 5);
    assert_eq!(u16::MAX.to_leb128u(&mut Vec::new()).unwrap(), 3);
    assert_eq!(u8::MAX.to_leb128u(&mut Vec::new()).unwrap(), 2);
}

#[test]
fn exhaustive_u8_and_i8() {
    let encodings: Vec<Vec<u8>> = (0..=u8::MAX).map(|v| encode_unsigned(v as u64)).collect();
    for (v, bytes) in encodings.iter().enumerate() {
        assert!(bytes.len() <= 2);
        assert_eq!(u8::from_leb128u(&mut &bytes[..]).unwrap() as usize, v);
        assert_eq!(decode_unsigned(bytes, 8), Ok(v as u64));
        for (w, other) in encodings.iter().enumerate() {
            assert_eq!(v == w, bytes == other);
        }
    }
    let signed: Vec<Vec<u8>> = (i8::MIN..=i8::MAX).map(|v| encode_signed(v as i64)).collect();
    for (k, bytes) in signed.iter().enumerate() {
        let v = k as i64 - 128;
        assert!(bytes.len() <= 2);
        assert_eq!(i8::from_leb128i(&mut &bytes[..]).unwrap() as i64, v);
        assert_eq!(decode_signed(bytes, 8), Ok(v));
        for (j, other) in signed.iter().enumerate() {
            assert_eq!(k == j, bytes == other);
        }
    }
}

#[test]
fn sampled_wider_round_trips() {
    let unsigned = [0u64, 1, 127, 128, 16383, 16384, 65535, 65536, u32::MAX as u64, u64::MAX];
    for v in unsigned {
        let bytes = encode_unsigned(v);
        assert_eq!(decode_unsigned(&bytes, 64), Ok(v));
        assert_eq!(read_unsigned(&mut &bytes[..], 64).unwrap(), v);
    }
    let signed = [0i64, -1, 63, 64, -64, -65, 8191, -8192, i32::MIN as i64, i32::MAX as i64, i64::MIN, i64::MAX];
    for v in signed {
        let bytes = encode_signed(v);
        assert_eq!(decode_signed(&bytes, 64), Ok(v));
        assert_eq!(read_signed(&mut &bytes[..], 64).unwrap(), v);
    }
    for v in [i32::MIN, -1, 0, i32::MAX] {
        let mut buf = Vec::new();
        v.to_leb128i(&mut buf).unwrap();
        assert_eq!(i32::from_leb128i(&mut &buf[..]).unwrap(), v);
    }
    for v in [0u32, u32::MAX] {
        let mut buf = Vec::new();
        v.to_leb128u(&mut buf).unwrap();
        assert_eq!(u32::from_leb128u(&mut &buf[..]).unwrap(), v);
    }
}

#[test]
fn value_too_large_for_width() {
    let bytes = [0xffu8, 0x01];
    assert!(is_malformed(i8::from_leb128i(&mut &bytes[..])));
    assert_eq!(decode_signed(&bytes, 8), Err(DecodeError::RangeOverflow));
    assert_eq!(u8::from_leb128u(&mut &bytes[..]).unwrap(), 255);
    assert_eq!(u16::from_leb128u(&mut &bytes[..]).unwrap(), 255);
    assert_eq!(i16::from_leb128i(&mut &bytes[..]).unwrap(), 255);
    assert_eq!(decode_unsigned(&bytes, 8), Ok(255));
    assert_eq!(decode_unsigned(&bytes, 16), Ok(255));
    let above = [0x80u8, 0x02];
    assert!(is_malformed(u8::from_leb128u(&mut &above[..])));
    assert_eq!(decode_unsigned(&above, 8), Err(DecodeError::RangeOverflow));
    assert_eq!(u16::from_leb128u(&mut &above[..]).unwrap(), 256);
    let five = [0x80u8, 0x80, 0x80, 0x80, 0x01];
    assert_eq!(decode_unsigned(&five, 8), Err(DecodeError::RangeOverflow));
    assert_eq!(decode_unsigned(&five, 32), Ok(1 << 28));
    let big = [0x80u8, 0x01];
    assert!(is_malformed(i8::from_leb128i(&mut &big[..])));
    assert_eq!(decode_signed(&big, 8), Err(DecodeError::RangeOverflow));
    assert_eq!(decode_signed(&big, 16), Ok(128));
}

#[test]
fn redundant_groups_only_streaming_rejects() {
    let bytes = [0x81u8, 0x00];
    assert!(is_malformed(u8::from_leb128u(&mut &bytes[..])));
    assert_eq!(decode_unsigned(&bytes, 8), Ok(1));
    let minus_one = [0xffu8, 0x7f];
    assert!(is_malformed(i8::from_leb128i(&mut &minus_one[..])));
    assert_eq!(decode_signed(&minus_one, 8), Ok(-1));
    assert_eq!(unsigned_from_frame(&vec![0x81, 0x00], 8), None);
    assert_eq!(unsigned_from_frame(&vec![0x81, 0x01], 16), Some(129));
    assert_eq!(signed_from_frame(&vec![0xbf, 0x7f], 8), Some(-65));
    assert_eq!(signed_from_frame(&vec![0xff, 0x7f], 8), None);
}

#[test]
fn streaming_gives_up_at_the_width() {
    let bytes = [0x80u8, 0x80, 0x00];
    let mut rest: &[u8] = &bytes;
    assert!(is_malformed(u8::from_leb128u(&mut rest)));
    assert_eq!(rest, &[0x00]);
}

#[test]
fn streaming_consumes_exactly_one_value() {
    let bytes = [0xe5u8, 0x8e, 0x26, 0x7f, 0x2a];
    let mut rest: &[u8] = &bytes;
    assert_eq!(u32::from_leb128u(&mut rest).unwrap(), 624485);
    assert_eq!(i8::from_leb128i(&mut rest).unwrap(), -1);
    assert_eq!(rest, &[0x2a]);
}

#[test]
fn running_out_of_input() {
    let empty: [u8; 0] = [];
    assert_eq!(io_kind(u8::from_leb128u(&mut &empty[..])), Some(std::io::ErrorKind::UnexpectedEof));
    let cut = [0x80u8];
    assert_eq!(io_kind(i16::from_leb128i(&mut &cut[..])), Some(std::io::ErrorKind::UnexpectedEof));
    assert_eq!(decode_unsigned(&empty, 8), Err(DecodeError::UnexpectedEnd));
    assert_eq!(decode_signed(&cut, 8), Err(DecodeError::UnexpectedEnd));
}

#[test]
fn too_many_continuation_bytes() {
    let long = [0x80u8; 19];
    assert_eq!(decode_unsigned(&long, 64), Err(DecodeError::TooLongBytes));
    assert_eq!(decode_signed(&long, 64), Err(DecodeError::TooLongBytes));
    let mut almost = vec![0x80u8; 18];
    almost.push(0x04);
    assert_eq!(decode_unsigned(&almost, 8), Ok(0));
    let mut padded = vec![0x85u8];
    padded.extend(vec![0x80u8; 17]);
    padded.push(0x00);
    assert_eq!(decode_unsigned(&padded, 8), Ok(5));
    assert_eq!(decode_signed(&padded, 8), Ok(5));
}

#[test]
fn error_descriptions() {
    assert_eq!(FromLeb128Error::Malformed.describe(), "malformed bytes");
    let empty: [u8; 0] = [];
    let err = u8::from_leb128u(&mut &empty[..]).unwrap_err();
    let expected = std::io::Error::from(std::io::ErrorKind::UnexpectedEof).to_string();
    assert_eq!(err.describe(), expected);
    assert!(!expected.is_empty());
}

#[test]
fn io_errors_convert() {
    let err = FromLeb128Error::from(std::io::Error::from(std::io::ErrorKind::BrokenPipe));
    assert!(matches!(err, FromLeb128Error::Io(ref e) if e.kind() == std::io::ErrorKind::BrokenPipe));
}

#[test]
fn encodings_are_shortest() {
    for shift in 0..64u32 {
        let v = 1u64 << shift;
        let needed = (shift as usize + 1 + 6) / 7;
        assert_eq!(encode_unsigned(v).len(), needed);
        assert_eq!(encode_unsigned(v - 1).len(), std::cmp::max(1, (shift as usize + 6) / 7));
    }
    for shift in 0..63u32 {
        let v = 1i64 << shift;
        let needed = (shift as usize + 2 + 6) / 7;
        assert_eq!(encode_signed(v).len(), needed);
        assert_eq!(encode_signed(-v - 1).len(), needed);
        assert_eq!(encode_signed(-v).len(), (shift as usize + 1 + 6) / 7);
    }
    assert_eq!(encode_unsigned(0x3fff), vec![0xff, 0x7f]);
    assert_eq!(encode_signed(-8192), vec![0x80, 0x40]);
}
